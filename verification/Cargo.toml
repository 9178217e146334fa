[package]
name = "grid_engine"
version = "0.1.0"
edition = "2021"
publish = false

[dependencies]
grid = "*"
tokio = { version = "*", features = ["rt-multi-thread", "net", "sync", "macros", "io-util"] }
tokio-tungstenite = "*"
futures-util = "*"
http = "*"
