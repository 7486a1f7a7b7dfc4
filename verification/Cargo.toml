[package]
name = "redis_shake_rs"
version = "0.1.0"
edition = "2021"
publish = false

[dependencies]
byteorder = "1"
crc64 = "*"
time = "0.3"
redis = { version = "0.23", default-features = false, features = ["aio", "async-std-comp"] }
async-std = "1"
tokio = { version = "1", features = ["sync"] }
futures-util = { version = "0.3", features = ["io"] }
net2 = "0.2"
