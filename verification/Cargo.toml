[package]
name = "ciphers"
version = "0.1.0"
edition = "2021"
publish = false

[dependencies]
aes = "*"
sha2 = "*"
clap = { version = "*", features = ["derive"] }
