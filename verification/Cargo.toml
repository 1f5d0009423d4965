[package]
name = "fclones"
version = "0.1.0"
edition = "2021"
publish = false

[dependencies]
image = { version = "*", default-features = false, features = ["jpeg", "png"] }
redis = "*"
xattr = "*"
xxhash-rust = { version = "*", features = ["xxh3"] }
serde = { version = "*", features = ["derive"] }
serde_json = "*"
chrono = "*"
