//! The dedup registry: the session-scoped set of canonical local paths
//! already claimed for download.
//!
//! A path is claimed at most once per session: the first `try_claim` for a
//! path wins and records it, every later one loses. Claims are never released,
//! so a path whose fetch later fails is not retried within the session. The
//! registry is the single source of truth shared by all fetches of a session;
//! a caller that runs fetches concurrently serializes `try_claim` calls (one
//! critical section around the registry), and the exactly-one-winner law below
//! then holds of the serialized order.

use vstd::prelude::*;

verus! {

/// The set of canonical paths claimed so far in one scraper session.
pub struct DedupRegistry {
    paths: Vec<String>,
}

/// One claim against the registry holding the set `s`: the set afterwards,
/// and whether this claim won (the path was not yet present).
pub open spec fn claim_step(s: Set<Seq<char>>, p: Seq<char>) -> (Set<Seq<char>>, bool) {
    (s.insert(p), !s.contains(p))
}

/// How many of `n` consecutive claims of the path `p`, starting from the set
/// `s`, win.
pub open spec fn wins_among(s: Set<Seq<char>>, p: Seq<char>, n: nat) -> nat
    decreases n,
{
    if n == 0 {
        0
    } else {
        (if claim_step(s, p).1 {
            1nat
        } else {
            0nat
        }) + wins_among(claim_step(s, p).0, p, (n - 1) as nat)
    }
}

impl View for DedupRegistry {
    type V = Set<Seq<char>>;

    closed spec fn view(&self) -> Set<Seq<char>> {
        self.path_seq().to_set()
    }
}

impl DedupRegistry {
    pub closed spec fn path_seq(&self) -> Seq<Seq<char>> {
        self.paths@.map_values(|p: String| p@)
    }

    /// No path is recorded twice; membership tests and the size then agree
    /// with the set view.
    pub closed spec fn inv(&self) -> bool {
        self.path_seq().no_duplicates()
    }

    /// An empty registry, created at session start.
    pub fn new() -> (r: DedupRegistry)
        ensures
            r.inv(),
            r@ == Set::<Seq<char>>::empty(),
    {
        let r = DedupRegistry { paths: Vec::new() };
        proof {
            assert(r.path_seq() =~= Seq::<Seq<char>>::empty());
            assert(r.path_seq().to_set() =~= Set::<Seq<char>>::empty());
        }
        r
    }

    /// Claims `path`: returns true and records it the first time it is called
    /// for that path in the session, false on every later call for it.
    pub fn try_claim(&mut self, path: String) -> (claimed: bool)
        requires
            old(self).inv(),
        ensures
            final(self).inv(),
            claimed == claim_step(old(self)@, path@).1,
            final(self)@ == claim_step(old(self)@, path@).0,
    {
        let n = self.paths.len();
        let mut i: usize = 0;
        while i < n
            invariant
                i <= n,
                n == self.paths.len(),
                *self == *old(self),
                old(self).inv(),
                forall|j: int| 0 <= j < i ==> self.path_seq()[j] != path@,
            decreases n - i,
        {
            if self.paths[i] == path {
                proof {
                    assert(self.path_seq()[i as int] == path@);
                    assert(self@.contains(path@));
                    assert(old(self)@.insert(path@) =~= old(self)@);
                }
                return false;
            }
            i += 1;
        }
        proof {
            assert forall|e: Seq<char>| !(old(self)@.contains(e) && e == path@) by {
                if old(self)@.contains(e) {
                    assert(old(self).path_seq().contains(e));
                }
            }
        }
        let ghost before = self.path_seq();
        self.paths.push(path);
        proof {
            assert(self.path_seq() =~= before.push(path@));
            assert(!before.contains(path@));
            assert(self.path_seq().no_duplicates());
            assert forall|e: Seq<char>| self@.contains(e) <==> old(self)@.insert(path@).contains(
                e,
            ) by {
                if self@.contains(e) {
                    let k = choose|k: int|
                        0 <= k < self.path_seq().len() && self.path_seq()[k] == e;
                    if k < before.len() {
                        assert(before[k] == e);
                        assert(old(self)@.contains(e));
                    }
                }
                if old(self)@.contains(e) {
                    let k = choose|k: int| 0 <= k < before.len() && before[k] == e;
                    assert(self.path_seq()[k] == e);
                }
                if e == path@ {
                    assert(self.path_seq()[before.len() as int] == e);
                }
            }
            assert(self@ =~= old(self)@.insert(path@));
        }
        true
    }

    /// How many distinct paths have been claimed this session.
    pub fn len(&self) -> (n: usize)
        requires
            self.inv(),
        ensures
            n == self@.len(),
    {
        proof {
            self.path_seq().unique_seq_to_set();
        }
        self.paths.len()
    }
}

proof fn lemma_no_winner(s: Set<Seq<char>>, p: Seq<char>, n: nat)
    requires
        s.contains(p),
    ensures
        wins_among(s, p, n) == 0,
    decreases n,
{
    if n > 0 {
        assert(s.insert(p).contains(p));
        lemma_no_winner(s.insert(p), p, (n - 1) as nat);
    }
}

/// Exactly one winner: of any number of `try_claim` calls for the same path,
/// applied one after another to a registry that does not yet hold it, exactly
/// one returns true. Each call takes the step `claim_step`, which is
/// `try_claim`'s contract; concurrent callers that serialize their claims
/// around the registry therefore see one winner among them.
pub proof fn lemma_exactly_one_winner(s: Set<Seq<char>>, p: Seq<char>, n: nat)
    requires
        n >= 1,
        !s.contains(p),
    ensures
        wins_among(s, p, n) == 1,
{
    assert(s.insert(p).contains(p));
    lemma_no_winner(s.insert(p), p, (n - 1) as nat);
}

} // verus!
