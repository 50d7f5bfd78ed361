[package]
name = "yaq_r"
version = "0.1.0"
edition = "2021"
publish = false

[dependencies]
tokio = { version = "*", features = ["rt-multi-thread", "net", "macros", "io-util", "time"] }
serde = { version = "*", features = ["derive"] }
serde_json = "*"
toml = "*"
dirs = "*"

[dev-dependencies]
apache-avro = "*"
