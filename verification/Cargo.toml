[package]
name = "manada"
version = "0.1.0"
edition = "2021"
publish = false

[dependencies]
rust_decimal = "*"
ansi_term = "*"
dirs = "*"
serde = { version = "*", features = ["derive"] }
toml = "*"
clap = { version = "*", features = ["derive"] }
