[package]
name = "entidb"
version = "0.1.0"
edition = "2021"
publish = false

[dependencies]
aes-gcm = "0.10"
sha2 = "0.10"
hmac = "0.12"
zeroize = { version = "1", features = ["derive"] }
thiserror = "1"
parking_lot = "0.12"
