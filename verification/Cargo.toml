[package]
name = "ip_lookup"
version = "0.1.0"
edition = "2021"
publish = false

[dependencies]
axum = "*"
axum-macros = "*"
axum-response-cache = "*"
config = "*"
futures = "*"
rand = "*"
serde = { version = "*", features = ["derive"] }
serde_json = "*"
serde_with = "*"
strum_macros = "*"
tokio = { version = "*", features = ["macros", "rt-multi-thread", "net", "time", "sync"] }
