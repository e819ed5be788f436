[package]
name = "npnp"
version = "0.1.0"
edition = "2021"
publish = false

[dependencies]
cfb = "*"
clap = { version = "4", features = ["derive"] }
encoding_rs = "0.8"
serde_json = "1"
tokio = { version = "1", features = ["rt", "sync"] }
