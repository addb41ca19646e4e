[package]
name = "herdr_spreader"
version = "0.3.4"
edition = "2021"
publish = false

[dependencies]
anyhow = "1"
clap = { version = "4", features = ["derive"] }
serde = { version = "1", features = ["derive"] }
serde_yaml_ng = "*"
thiserror = "*"
