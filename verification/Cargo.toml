[package]
name = "stipant"
version = "0.1.0"
edition = "2021"
publish = false

[dependencies]
base64 = "*"
rzfile = "*"
config = "*"
serde = { version = "*", features = ["derive"] }
serde_derive = "*"
anyhow = "*"
thiserror = "*"
