[package]
name = "calendarthing"
version = "0.1.0"
edition = "2021"
publish = false

[dependencies]
home = "*"
serde = { version = "*", features = ["derive"] }
serde_json = "*"
tokio = { version = "*", features = ["rt-multi-thread", "process"] }
