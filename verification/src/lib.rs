//! Offline mirroring of JavaScript-rendered web pages: the resource-discovery
//! and deduplicated-download pipeline.
//!
//! The library covers the part of the mirror with real logic: normalizing raw
//! resource URLs to collision-free local paths, collecting candidate URLs from
//! a rendered page's runtime state, claiming each path at most once per
//! session, and planning the fetch of each claimed asset. Browser automation
//! and the static file server are external collaborators driven from outside
//! the library.

use vstd::prelude::*;

pub mod collect;
pub mod norm;
pub mod registry;
pub mod session;

verus! {

pub use crate::norm::normalize_url_path;

} // verus!
