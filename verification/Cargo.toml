[package]
name = "nur"
version = "0.1.0"
edition = "2021"
publish = false

[dependencies]
clap = { version = "*", features = ["derive"] }
futures = "*"
miette = "*"
owo-colors = "*"
process-wrap = { version = "*", features = ["tokio1"] }
question = "*"
serde = { version = "*", features = ["derive"] }
serde_with = "*"
serde_yaml = "*"
textwrap = "*"
tokio = { version = "*", features = ["rt", "process", "io-util", "sync", "macros", "time"] }
tokio-util = "*"
