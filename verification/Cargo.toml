[package]
name = "zeke"
version = "0.1.0"
edition = "2021"
publish = false

[dependencies]
chrono = "*"
dashmap = "*"
futures = "*"
serde = { version = "*", features = ["derive"] }
serde_json = "*"
time = { version = "*", features = ["formatting", "parsing"] }
tokio = { version = "*", features = ["io-util", "macros", "net", "rt-multi-thread", "sync", "time"] }
