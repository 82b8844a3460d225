[package]
name = "docserver"
version = "0.1.0"
edition = "2021"
publish = false

[dependencies]
futures = "0.3"
hex = "0.4"
hyper = { version = "0.14", features = ["full"] }
hyper-tungstenite = "0.11"
rand = "0.8"
rusqlite = { version = "0.29", features = ["bundled", "serde_json"] }
serde = { version = "1", features = ["derive"] }
serde_derive = "1"
serde_json = "1"
serde_qs = "0.12"
tokio = { version = "1", features = ["full"] }
url = "2"
