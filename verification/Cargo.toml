[package]
name = "readnode_core"
version = "0.1.0"
edition = "2021"
publish = false

[dependencies]
redis = { version = "*", features = ["tokio-comp", "connection-manager"] }
tokio = { version = "*", features = ["rt"] }
