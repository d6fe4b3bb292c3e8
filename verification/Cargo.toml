[package]
name = "plainmark"
version = "0.1.0"
edition = "2021"
publish = false

[dependencies]
base64 = "0.22"
pulldown-cmark = { version = "*", default-features = false }
serde = { version = "1", features = ["derive"] }
serde_json = "1"
thiserror = "*"
notify = "*"
notify-debouncer-full = "*"
rusqlite = { version = "*", features = ["bundled"] }

[dev-dependencies]
tempfile = "3"
