[package]
name = "notebook_rs"
version = "0.3.0"
edition = "2021"
publish = false

[dependencies]
ansi_term = "0.12"
anyhow = "1"
chrono = "0.4"
clap = "4"
confy = "*"
directories = "*"
regex = "1"
serde = { version = "1", features = ["derive"] }
vader_sentiment = "*"
