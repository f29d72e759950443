[package]
name = "ttgraph"
version = "0.1.0"
edition = "2021"

[dependencies]
ordermap = "*"
serde = { version = "*", features = ["derive"] }
uuid = { version = "*", features = ["v4", "serde"] }
