[package]
name = "signaling"
version = "0.1.0"
edition = "2021"
publish = false

[dependencies]
rand = "=0.8.8"
sha2 = "=0.10.9"
bip39 = "=2.2.2"
serde_json = "=1.0.151"
tokio = { version = "=1.53.2", features = ["rt-multi-thread", "macros", "sync", "net", "time"] }
axum = { version = "=0.8.9", features = ["ws"] }
futures-util = "=0.3.34"
tokio-tungstenite = "=0.30.0"
webrtc = "=0.21.0"
uuid = { version = "=1.27.0", features = ["v4"] }
bytes = "=1.12.1"
async-trait = "=0.1.92"
