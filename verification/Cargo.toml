[package]
name = "chat_server"
version = "0.1.0"
edition = "2021"
publish = false

[dependencies]
tokio = { version = "*", features = ["macros", "rt-multi-thread", "net", "sync", "time", "io-util"] }
tokio-tungstenite = "*"
futures = "*"
colored = "*"
