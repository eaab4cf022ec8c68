[package]
name = "cvc_core"
version = "0.1.0"
edition = "2021"
publish = false

[dependencies]
anyhow = "1"
chrono = { version = "0.4", features = ["serde"] }
fs2 = "0.4"
git2 = { version = "*", default-features = false }
hex = "0.4"
libc = "0.2"
regex = "1"
rusqlite = { version = "*", features = ["bundled"] }
serde = { version = "1", features = ["derive"] }
serde_json = "1"
sha2 = "0.10"
thiserror = "*"
uuid = { version = "1", features = ["v4", "serde"] }
