[package]
name = "ephemerole"
version = "0.1.0"
edition = "2021"
publish = false

[dependencies]
ahash = "0.8"
tokio = { version = "1", features = ["rt", "macros", "signal"] }
tokio-util = { version = "0.7", features = ["rt"] }
twilight-gateway = "0.16"
twilight-http = "0.16"
twilight-model = "0.16"
