[package]
name = "solitaire_core"
version = "0.1.0"
edition = "2021"
publish = false

[dependencies]
rand = "0.8"
web-time = "1"
serde = { version = "1", features = ["derive"] }
serde_json = "1"
flate2 = "1"
agg-gui = "*"
