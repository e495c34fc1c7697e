[package]
name = "numass"
version = "0.1.0"
edition = "2021"
publish = false

[dependencies]
md5 = "0.7"
hex = "0.4"
natord = "1.0"
tokio = { version = "1", features = ["io-util", "fs", "rt", "macros"] }
serde = { version = "1", features = ["derive"] }
serde_json = "1"
serde_repr = "0.1"
serde_with = "3"
chrono = { version = "0.4", features = ["serde"] }
glob = "0.3"
rmp-serde = "1"
