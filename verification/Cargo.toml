[package]
name = "impaccable"
version = "0.1.0"
edition = "2021"
publish = false

[dependencies]
anyhow = "*"
clap = { version = "*", features = ["derive"] }
colored = "*"
dialoguer = { version = "*", features = ["fuzzy-select"] }
directories = "*"
os-release = "*"
reqwest = { version = "*", default-features = false, features = ["blocking"] }
serde = { version = "*", features = ["derive"] }
thiserror = "*"
toml = "*"
walkdir = "*"
