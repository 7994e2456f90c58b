[package]
name = "envelope_list"
version = "0.1.0"
edition = "2021"
publish = false

[dependencies]
anyhow = "1"
chrono = "0.4"
clap = { version = "4", features = ["derive"] }
comfy-table = "7"
humansize = "2"
io-email = "*"
pimalaya-cli = "*"
serde = { version = "1", features = ["derive"] }
