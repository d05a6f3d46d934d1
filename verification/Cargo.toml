[package]
name = "broker_core"
version = "0.1.0"
edition = "2021"
publish = false

[dependencies]
tokio = { version = "1", features = ["rt-multi-thread", "sync", "macros"] }
quinn = "*"
tracing = "0.1"
rand = "*"
rustls-pki-types = "*"
