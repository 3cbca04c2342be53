[package]
name = "pumpkin"
version = "0.1.0"
edition = "2021"
publish = false

[dependencies]
bytes = "1"
ed25519-dalek = "2"
hex = "0.4"
rand = "0.9"
sha2 = "0.10"
thiserror = "2"

[dev-dependencies]
uuid = { version = "1", features = ["v4"] }
