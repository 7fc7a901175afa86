[package]
name = "soundblast"
version = "0.1.0"
edition = "2021"
publish = false

[dependencies]
axum = "0.7"
axum_typed_multipart = "0.11"
dotenv = "0.15"
env_logger = "0.11"
futures = "0.3"
futures-util = "0.3"
log = "0.4"
mongodb = "2"
serde = { version = "1", features = ["derive"] }
serde_json = "1"
tempfile = "3"
tokio = { version = "1", features = ["full"] }
tokio-util = { version = "0.7", features = ["compat"] }
tower-http = { version = "0.5", features = ["fs", "cors"] }
