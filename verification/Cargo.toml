[package]
name = "hexlab"
version = "0.1.0"
edition = "2021"
publish = false

[dependencies]
hexx = { version = "0.19", default-features = false }
rand = "0.8"
rand_chacha = "0.3"
thiserror = "2.0"
serde = { version = "1.0", features = ["derive"] }
glam = "0.29"
