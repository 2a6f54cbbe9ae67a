[package]
name = "tilb"
version = "0.1.0"
edition = "2021"
publish = false

[dependencies]
clap = { version = "4", features = ["derive"] }
directories = "*"
env_logger = "*"
inquire = "*"
log = "0.4"
owo-colors = "*"
regex = "1"
serde = { version = "1", features = ["derive"] }
toml = "*"
