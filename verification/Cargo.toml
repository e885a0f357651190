[package]
name = "tact"
version = "0.1.0"
edition = "2021"
publish = false

[dependencies]
chrono = { version = "=0.4.45", features = ["serde"] }
uuid = { version = "=1.29.1", features = ["v4", "serde"] }
directories = "=6.0.0"
serde = { version = "=1.0.229", features = ["derive"] }
serde_json = "=1.0.154"
hound = "=3.5.1"
symphonia = { version = "=0.5.5", features = ["all"] }
rubato = "=0.16.2"
cpal = "=0.18.2"
keyring = "=4.2.0"
reqwest = { version = "=0.12.28", features = ["json", "multipart"] }
tokio = { version = "=1.54.1", features = ["fs", "rt"] }
tracing = "=0.1.44"
tracing-subscriber = "=0.3.23"
voice_activity_detector = "=0.2.1"
pyannote-rs = "=0.3.4"
