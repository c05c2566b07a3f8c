[package]
name = "markup_diff"
version = "0.1.0"
edition = "2021"
publish = false

[dependencies]
xxhash-rust = { version = "*", features = ["xxh3"] }
sha2 = "*"
rayon = "*"
serde = { version = "*", features = ["derive"] }
serde_json = "*"
chrono = "*"
