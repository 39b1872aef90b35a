[package]
name = "egawari"
version = "0.1.0"
edition = "2021"
publish = false

[dependencies]
anyhow = "*"
dirs = "*"
pancurses = "*"
serde = { version = "*", features = ["derive"] }
toml = "*"
