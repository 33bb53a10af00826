[package]
name = "aragog_cli"
version = "0.1.0"
edition = "2021"
publish = false

[dependencies]
aragog = "=0.17.1"
arangors_lite = "=0.2.0"
clap = "=4.6.7"
tokio = { version = "=1.53.2", features = ["full"] }
