[package]
name = "metamind"
version = "0.1.0"
edition = "2021"
publish = false

[dependencies]
sha2 = "*"
pulldown-cmark = { version = "*", default-features = false }
uuid = { version = "*", features = ["v4"] }
serde = { version = "*", features = ["derive"] }
serde_json = "*"
reqwest = { version = "*", default-features = false, features = ["json", "stream"] }
futures = "*"
tokio = { version = "*", features = ["rt", "macros", "sync"] }
rusqlite = { version = "*", features = ["bundled"] }
async-trait = "*"
