[package]
name = "pawse"
version = "0.1.0"
edition = "2021"
publish = false

[dependencies]
sha2 = "0.10"
flate2 = "1"
image = { version = "0.25", default-features = false, features = ["jpeg", "png"] }
rusqlite = { version = "*", features = ["bundled"] }
serde = { version = "1", features = ["derive"] }
serde_json = "1"
thiserror = "2"
dirs = "*"
log = "0.4"
