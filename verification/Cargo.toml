[package]
name = "internet_map"
version = "0.1.0"
edition = "2021"
publish = false

[dependencies]
futures = "*"
rand = "*"
sqlite = "*"
surge-ping = "*"
tokio = { version = "*", features = ["full"] }
