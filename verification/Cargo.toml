[package]
name = "bentoo"
version = "0.1.0"
edition = "2021"
publish = false

[dependencies]
clap = { version = "*", features = ["derive"] }
duration-str = "*"
home = "*"
serde = { version = "*", features = ["derive"] }
serde_json = "*"
serde-sarif = "*"
tempfile = "*"
toml = "*"
walkdir = "*"
