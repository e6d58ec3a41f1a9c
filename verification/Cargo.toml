[package]
name = "audio_fingerprint"
version = "0.1.0"
edition = "2021"
publish = false

[dependencies]
anyhow = "1"
num-complex = "0.4"
rand = "0.9"
rustfft = "6"
serde = { version = "1", features = ["derive"] }
serde_json = "1"
symphonia = { version = "0.5", features = ["mp3"] }
tokio = { version = "1", features = ["macros", "rt-multi-thread"] }
tracing = "0.1"
tracing-subscriber = "0.3"
