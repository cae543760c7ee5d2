[package]
name = "weather_paper"
version = "0.1.0"
edition = "2021"
publish = false

[dependencies]
alloy-primitives = "1"
anyhow = "1"
chrono = { version = "0.4", default-features = false, features = ["std", "clock"] }
hex = "0.4"
reqwest = { version = "0.12", default-features = false, features = ["json", "rustls-tls"] }
serde = { version = "1", features = ["derive"] }
serde_json = "1"
tokio = { version = "1", features = ["macros", "rt-multi-thread", "sync", "time"] }
tracing = "0.1"
tracing-subscriber = { version = "0.3", features = ["env-filter"] }
