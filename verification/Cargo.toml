[package]
name = "ssdedupe"
version = "0.1.0"
edition = "2021"
publish = false

[dependencies]
ahash = "*"
serde = { version = "*", features = ["derive"] }
postcard = { version = "*", features = ["use-std"] }
rayon = "*"
