[package]
name = "qw_core"
version = "0.1.0"
edition = "2021"
publish = false

[dependencies]
argon2 = "0.5"
chacha20poly1305 = "0.10"
blake2 = "0.10"
rand = "0.9"
hex = "0.4"
uuid = { version = "1", features = ["v4"] }
unicode-normalization = "0.1"
serde = { version = "1", features = ["derive"] }
serde_json = "1"
