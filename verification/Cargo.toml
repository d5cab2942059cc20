[package]
name = "mts"
version = "2.0.0"
edition = "2021"
publish = false

[dependencies]
fastanvil = { version = "=0.32.0", default-features = false }
fastnbt = "=2.6.3"
serde = { version = "=1.0.229", features = ["derive"] }
serde_json = "=1.0.154"
winapi = { version = "=0.3.9", features = ["sysinfoapi"] }
