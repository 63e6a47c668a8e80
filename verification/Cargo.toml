[package]
name = "omastorm"
version = "0.1.0"
edition = "2021"
publish = false

[dependencies]
chrono = "0.4"
png = "*"
reqwest = { version = "0.12", default-features = false, features = ["rustls-tls"] }
serde = { version = "1", features = ["derive"] }
serde_json = "1"
tokio = { version = "1", features = ["rt", "rt-multi-thread", "macros", "time", "sync"] }
xml = "*"
