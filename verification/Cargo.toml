[package]
name = "raw"
version = "0.1.0"
edition = "2021"
publish = false

[dependencies]
ahash = "0.8"
axum = "0.8"
derive_more = { version = "1", features = ["display", "from"] }
serde = { version = "1", features = ["derive"] }
serde_json = "1"
serde_with = "3"
strum_macros = "0.26"
tokio = { version = "1", features = ["full"] }
tower-cookies = "0.11"
tower-http = { version = "0.6", features = ["fs"] }
tracing = "0.1"
tracing-subscriber = { version = "0.3", features = ["env-filter"] }
uuid = { version = "1", features = ["v4"] }

[dev-dependencies]
bytemuck = "1"
