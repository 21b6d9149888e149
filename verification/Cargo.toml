[package]
name = "player_store"
version = "0.1.0"
edition = "2021"
publish = false

[dependencies]
bson = "2"
mongodb = "2"
tokio = { version = "1", features = ["full"] }
tokio-stream = "0.1"
