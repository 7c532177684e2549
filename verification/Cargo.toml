[package]
name = "oremine"
version = "0.1.0"
edition = "2021"
publish = false

[dependencies]
rand = "=0.8.8"
fixed = "=1.28.0"
serde = { version = "=1.0.229", features = ["derive"] }
serde_json = "=1.0.154"
tokio = { version = "=1.54.1", features = ["full"] }
axum = { version = "=0.8.9", features = ["ws"] }
futures = "=0.3.34"
tracing = "=0.1.44"
tracing-subscriber = { version = "=0.3.23", features = ["env-filter", "fmt"] }
anyhow = "=1.0.104"
dotenvy = "=0.15.7"
steel = "=4.0.9"
ore-api = "=3.8.25"
const-crypto = "=0.3.0"
