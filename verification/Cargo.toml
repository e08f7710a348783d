[package]
name = "declair"
version = "0.1.0"
edition = "2021"
publish = false

[dependencies]
clap = { version = "4", features = ["derive"] }
dialoguer = { version = "0.11", features = ["completion"] }
directories = "5"
gix = "*"
serde = { version = "1", features = ["derive"] }
serde_json = "1"
toml = "*"
