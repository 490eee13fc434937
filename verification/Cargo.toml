[package]
name = "uptime_monitor"
version = "0.1.0"
edition = "2021"
publish = false

[dependencies]
tokio = { version = "=1.53.2", features = ["full"] }
warp = { version = "=0.4.3", features = ["server"] }
reqwest = { version = "=0.13.5", default-features = false }
tracing = "=0.1.44"
tracing-subscriber = { version = "=0.3.23", features = ["json"] }
