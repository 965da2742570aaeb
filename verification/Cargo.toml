[package]
name = "uf2"
version = "0.1.0"
edition = "2021"
publish = false

[dependencies]
anyhow = "*"
arrayvec = "*"
clap = { version = "*", features = ["derive"] }
