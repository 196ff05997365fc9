[package]
name = "lds"
version = "0.1.0"
edition = "2021"
publish = false

[dependencies]
byteorder = "1"
futures = { version = "0.3", default-features = false, features = ["std"] }
tokio = { version = "1", features = ["io-util", "net", "rt", "rt-multi-thread", "sync", "time"] }

[dev-dependencies]
hex = "0.4"
