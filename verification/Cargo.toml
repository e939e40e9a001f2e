[package]
name = "encounter"
version = "0.1.0"
edition = "2021"
publish = false

[dependencies]
image = { version = "=0.25.10", default-features = false }
ocrs = "=0.13.1"
regex = "=1.13.1"
rten-tensor = "=0.26.0"
scrap = "=0.5.0"
serde = { version = "=1.0.229", features = ["derive"] }
serde_json = "=1.0.154"
