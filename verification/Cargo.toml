[package]
name = "quic_p2p"
version = "0.1.0"
edition = "2021"
publish = false

[dependencies]
quinn = "*"
tokio = { version = "*", features = ["rt", "net", "sync", "io-util", "time"] }
