[package]
name = "tts_stream"
version = "0.1.0"
edition = "2021"
publish = false

[dependencies]
axum = { version = "=0.8.9", default-features = false }
base64 = "=0.22.1"
mouse_position = "=0.1.4"
ollama-rs = { version = "=0.3.6", default-features = false }
ort = { version = "=2.0.0-rc.15", default-features = false, features = ["std"] }
regex = "=1.13.1"
serde = { version = "=1.0.229", features = ["derive"] }
serde_json = "=1.0.154"
tauri = { version = "=2.12.5", default-features = false }
tauri-plugin-positioner = { version = "=2.4.0", default-features = false }
tokio = { version = "=1.54.1", features = ["rt", "rt-multi-thread", "sync", "time"] }
tokio-stream = "=0.1.19"
tracing = "=0.1.44"
tracing-subscriber = "=0.3.23"
uuid = { version = "=1.29.0", features = ["v4"] }
