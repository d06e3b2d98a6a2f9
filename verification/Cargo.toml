[package]
name = "ivoclar_offline"
version = "0.1.0"
edition = "2021"
publish = false

[dependencies]
axum = "*"
reqwest = { version = "*", default-features = false }
serde_json = "*"
thirtyfour = "*"
tokio = { version = "*", features = ["macros", "rt-multi-thread", "fs", "time", "net"] }
tower-http = { version = "*", features = ["fs"] }
