[package]
name = "editor"
version = "0.1.0"
edition = "2021"
publish = false

[dependencies]
anyhow = "*"
clap = { version = "*", features = ["derive"] }
copy_dir = "*"
dirs = "*"
serde = { version = "*", features = ["derive"] }
toml = "*"
