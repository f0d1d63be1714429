[package]
name = "akari"
version = "0.1.0"
edition = "2021"
publish = false

[dependencies]
itertools = "*"
serde = { version = "1", features = ["derive"] }
http = "1"
worker = "*"
tracing-subscriber = { version = "0.3", features = ["time", "json"] }
tracing-web = "*"
console_error_panic_hook = "0.1"

[dev-dependencies]
serde_json = "1"
