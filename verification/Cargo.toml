[package]
name = "task_scheduler"
version = "0.1.0"
edition = "2021"
publish = false

[dependencies]
chrono = "=0.4.45"
croner = "=2.2.0"
indexmap = { version = "=2.14.2", features = ["serde"] }
jiff = "=0.2.38"
serde = { version = "=1.0.229", features = ["derive"] }
serde_yaml = "=0.9.34"
