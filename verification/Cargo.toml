[package]
name = "friend_crawler"
version = "0.1.0"
edition = "2021"
publish = false

[dependencies]
itertools = "=0.15.0"
parking_lot = "=0.12.5"
rayon = "=1.12.0"
reqwest = { version = "=0.13.5", default-features = false, features = ["blocking", "query"] }
serde = { version = "=1.0.229", features = ["derive"] }
serde_json = "=1.0.151"
