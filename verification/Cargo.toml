[package]
name = "redis_starter_rust"
version = "0.1.0"
edition = "2021"
publish = false

[dependencies]
tokio = { version = "1", features = ["net", "io-util", "sync", "signal", "rt-multi-thread", "macros", "time"] }
serde = { version = "1", features = ["derive"] }
thiserror = "1"
config = { version = "0.14", default-features = false, features = ["toml"] }
