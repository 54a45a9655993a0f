[package]
name = "docker-compose-updater"
version = "0.1.0"
edition = "2021"
publish = false

[dependencies]
semver = "=1.0.28"
cron = "=0.17.0"
urlencoding = "=2.1.3"
serde_json = "=1.0.154"
chrono = "=0.4.45"
serde = { version = "=1.0.229", features = ["derive"] }
serde_yaml = "=0.9.34"
reqwest = { version = "=0.12.28", default-features = false, features = ["rustls-tls"] }
tokio = { version = "=1.54.1", features = ["macros", "rt-multi-thread", "net", "time", "io-util"] }
clap = { version = "=4.6.7", features = ["derive"] }
anyhow = "=1.0.104"
tracing = "=0.1.44"
tracing-subscriber = "=0.3.23"
regex = "1"
