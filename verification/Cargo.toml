[package]
name = "zdb_core"
version = "0.1.0"
edition = "2021"
publish = false

[dependencies]
automerge = "0.5"
chrono = "0.4"
git2 = { version = "0.19", default-features = false, features = ["vendored-libgit2"] }
redb = "2"
regex = "1"
rusqlite = { version = "0.32", features = ["bundled"] }
serde = { version = "1", features = ["derive"] }
serde_json = "1"
serde_yaml = "0.9"
sha2 = "0.10"
similar = "2"
sqlparser = "0.55"
tar = "0.4"
thiserror = "1"
toml = "0.8"
tracing = "0.1"
uniffi = "0.28"
uuid = { version = "1", features = ["v4"] }
