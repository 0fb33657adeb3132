[package]
name = "autoxrandr"
version = "0.1.0"
edition = "2021"
publish = false

[dependencies]
clap = { version = "4", features = ["derive"] }
home = "0.5"
owo-colors = "4"
serde = { version = "1", features = ["derive"] }
serde_json = "1"
