[package]
name = "shortener_analytics"
version = "0.1.0"
edition = "2021"
publish = false

[dependencies]
uuid = { version = "*", features = ["v4"] }
chrono = "*"
rand = "*"
lapin = "*"
redis = { version = "*", features = ["tokio-comp"] }
tokio = { version = "*", features = ["macros", "rt-multi-thread", "net"] }
serde = { version = "*", features = ["derive"] }
serde_json = "*"
anyhow = "*"
async-trait = "*"
futures-lite = "*"
axum = "*"
dotenvy = "*"
tracing = "*"
tracing-subscriber = "*"
opentelemetry = "*"
opentelemetry_sdk = "*"
tracing-opentelemetry = "*"
