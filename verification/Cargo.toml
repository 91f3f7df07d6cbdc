[package]
name = "musync"
version = "0.1.0"
edition = "2021"
publish = false

[dependencies]
sled = "0.34"
unicode-normalization = "0.1"
serde = { version = "1", features = ["derive"] }
serde_json = "1"
reqwest = { version = "*", default-features = false, features = ["json"] }
tokio = { version = "1", features = ["rt-multi-thread", "macros"] }
clap = "4"
config = { version = "*", default-features = false, features = ["yaml"] }
indicatif = "0.17"
walkdir = "2"

[dev-dependencies]
tempfile = "3"
