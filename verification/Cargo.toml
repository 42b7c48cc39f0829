[package]
name = "pswap_sync"
version = "0.1.0"
edition = "2021"
publish = false

[dependencies]
async-trait = "0.1"
miden-protocol = { version = "0.15.3", default-features = false, features = ["testing"] }
miden-standards = { version = "0.15.3", default-features = false }
miden-tx = { version = "0.15.3", default-features = false }
rusqlite = { version = "0.37", features = ["bundled"] }
thiserror = { version = "2", default-features = false }
tracing = { version = "0.1", default-features = false }
