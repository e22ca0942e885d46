[package]
name = "primality"
version = "0.1.0"
edition = "2021"
publish = false

[dependencies]
arrow = "*"
clap = { version = "*", features = ["derive"] }
humantime = "*"
parquet = "*"
strum = "*"
strum_macros = "*"
