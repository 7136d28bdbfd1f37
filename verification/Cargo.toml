[package]
name = "secret_sync"
version = "0.1.0"
edition = "2021"
publish = false

[dependencies]
bytes = "*"
env_logger = "*"
futures = "*"
log = "*"
reqwest = { version = "*", default-features = false, features = ["rustls-tls", "stream", "json"] }
serde = { version = "*", features = ["derive"] }
serde_json = "*"
tokio = { version = "*", features = ["macros", "rt-multi-thread", "signal", "time", "process", "io-util", "sync"] }
