[package]
name = "sdk_rules"
version = "0.1.0"
edition = "2021"
publish = false

[dependencies]
regex = "1"
clap = { version = "4", features = ["derive"] }
expect-exit = "*"
serde = { version = "1", features = ["derive"] }
serde_yaml = "0.9"
