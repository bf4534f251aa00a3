[package]
name = "starbound_assets"
version = "0.1.0"
edition = "2021"
publish = false

[dependencies]
clap = "*"
memmap = "*"
progress_bar = "*"
serde = { version = "*", features = ["derive"] }
serde_json = "*"
