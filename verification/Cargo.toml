[package]
name = "cipherpad"
version = "0.1.0"
edition = "2021"
publish = false

[dependencies]
anyhow = "1"
argon2 = "0.5"
base64 = "0.21"
file-format = "*"
r2d2 = "0.8"
r2d2_sqlite = { version = "*", features = ["bundled"] }
ring = "0.17"
rusqlite = { version = "*", features = ["blob", "bundled", "uuid"] }
serde = { version = "1", features = ["derive"] }
serde_json = "1"
tokio = { version = "1", features = ["fs", "io-util", "macros", "rt-multi-thread", "sync"] }
uuid = { version = "1", features = ["serde", "v4"] }
