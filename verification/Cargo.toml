[package]
name = "rlogger"
version = "0.2.0"
edition = "2021"
publish = false

[dependencies]
chrono = "0.4"
base64 = "0.22"
uuid = { version = "1", features = ["v4"] }
serde = { version = "1", features = ["derive"] }
serde_json = "1"
libc = "0.2"
tar = "0.4"
tokio = { version = "1", features = ["full"] }
tokio-util = { version = "0.7", features = ["io", "rt"] }
axum = { version = "0.8.9", features = ["ws"] }
hyper-util = { version = "0.1", features = ["server", "server-auto", "tokio", "service", "http1"] }
url = "2"
percent-encoding = "2"
log = { version = "0.4", features = ["std"] }
tracing = "0.1"
tracing-subscriber = { version = "0.3", features = ["registry", "std"] }

[dev-dependencies]
tempfile = "3"
