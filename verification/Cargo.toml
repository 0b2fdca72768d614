[package]
name = "paredros"
version = "0.1.0"
edition = "2021"
publish = false

[dependencies]
serde = { version = "1.0.229", features = ["derive"] }
serde_json = "1.0.154"
png = "0.18.1"
pollster = "0.4.0"
