[package]
name = "llm_response_tts"
version = "0.1.0"
edition = "2021"
publish = false

[dependencies]
serde_json = "*"
serde = { version = "*", features = ["derive"] }
tokio = { version = "*", features = ["macros", "rt-multi-thread", "net"] }
axum = "*"
redis = { version = "*", features = ["tokio-comp", "connection-manager"] }
reqwest = { version = "*", default-features = false, features = ["json"] }
ureq = { version = "*", default-features = false, features = ["json"] }
rodio = "*"
tracing = "*"
tracing-subscriber = "*"
libc = "*"
