[package]
name = "trading_engine"
version = "0.1.0"
edition = "2021"
publish = false

[dependencies]
serde = { version = "1", features = ["derive"] }
serde_json = "1"
slab = "0.4"
tokio = { version = "1", features = ["rt-multi-thread", "macros", "sync", "net", "io-util", "signal", "time"] }
