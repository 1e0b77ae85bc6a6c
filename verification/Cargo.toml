[package]
name = "llamanyon"
version = "0.1.0"
edition = "2021"
publish = false

[dependencies]
half = "2"
tokenizers = { version = "0.21", default-features = false, features = ["fancy-regex"] }
anyhow = "1"
thiserror = "1"
serde = { version = "1", features = ["derive"] }
serde_json = "1"
memmap2 = "0.9"
libc = "0.2"
libloading = "0.8"
rayon = "1"
rand = "0.8"
tracing = "0.1"
tokio = { version = "1", features = ["rt", "rt-multi-thread", "sync", "time", "macros"] }
prometheus = { version = "0.13", default-features = false }
ash = { version = "0.38", default-features = false, features = ["std"] }
mlua = { version = "0.10", features = ["lua54", "vendored"] }
