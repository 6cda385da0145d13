[package]
name = "matchbox_server"
version = "0.1.0"
edition = "2021"
publish = false

[dependencies]
async-trait = "0.1"
axum = "=0.8.9"
clap = { version = "=4.6.7", features = ["derive"] }
futures = "0.3"
matchbox_protocol = { version = "0.14", features = ["json"] }
matchbox_signaling = "=0.14.0"
serde_json = "=1.0.151"
tokio = { version = "=1.53.2", features = ["full"] }
tracing = "=0.1.44"
tracing-subscriber = { version = "=0.3.23", features = ["env-filter"] }
