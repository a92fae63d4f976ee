[package]
name = "rayclaw"
version = "0.1.0"
edition = "2021"
publish = false

[dependencies]
aes = "0.8"
ecb = { version = "0.1", features = ["alloc"] }
md-5 = "0.10"
base64 = "0.22"
hex = "0.4"
urlencoding = "2"
uuid = { version = "1", features = ["v4"] }
chrono = "0.4"
serde = { version = "1", features = ["derive"] }
serde_json = "1"
serde_yaml = "0.9"
qrcode = { version = "0.14", default-features = false }
tokio = { version = "1", features = ["full"] }
reqwest = { version = "0.12", default-features = false, features = ["json", "multipart", "stream", "rustls-tls"] }
tokio-tungstenite = { version = "0.24", features = ["rustls-tls-webpki-roots"] }
futures-util = "0.3"
axum = "0.7"
async-trait = "0.1"
tracing = "0.1"
