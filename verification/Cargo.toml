[package]
name = "native_spark"
version = "0.1.0"
edition = "2021"
publish = false

[dependencies]
fasthash = "*"
rand = "*"
uuid = { version = "*", features = ["v4"] }
actix-web = "*"
serde = { version = "*", features = ["derive"] }
bincode = "1"
