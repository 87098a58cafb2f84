[package]
name = "familiar"
version = "0.1.0"
edition = "2021"
publish = false

[dependencies]
chrono = { version = "=0.4.45", features = ["serde"] }
serde = { version = "=1.0.229", features = ["derive"] }
serde_json = "=1.0.154"
cairo-rs = { version = "=0.22.9", features = ["pdf", "v1_16"] }
pango = "=0.22.9"
pangocairo = "=0.22.9"
