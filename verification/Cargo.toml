[package]
name = "mangatan_ocr_server"
version = "0.1.0"
edition = "2021"
publish = false

[dependencies]
anyhow = "=1.0.104"
avif-decode = "=1.0.2"
axum = "=0.8.9"
chrome_lens_ocr = "=0.3.0"
futures = "=0.3.34"
image = { version = "=0.25.10", default-features = false, features = ["png", "jpeg", "webp"] }
reqwest = { version = "=0.12.28", default-features = false }
serde = { version = "=1.0.229", features = ["derive"] }
serde_json = "=1.0.154"
tokio = { version = "=1.54.1", features = ["rt-multi-thread", "macros", "sync", "time"] }
tracing = "=0.1.44"
