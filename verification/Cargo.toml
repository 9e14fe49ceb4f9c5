[package]
name = "dmmt"
version = "0.1.0"
edition = "2021"
publish = false

[dependencies]
axum = "*"
fastnbt = "*"
flate2 = "*"
futures = "*"
image = { version = "*", default-features = false, features = ["webp"] }
rayon = "*"
serde = { version = "*", features = ["derive"] }
serde_json = "*"
tokio = { version = "*", features = ["full"] }
tokio-stream = { version = "*", features = ["sync"] }
tower-http = { version = "*", features = ["fs", "compression-gzip", "set-header"] }
