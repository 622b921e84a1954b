[package]
name = "wail"
version = "0.1.0"
edition = "2021"
publish = false

[dependencies]
anyhow = "1"
assert_no_alloc = "*"
audiopus = "0.2"
bytes = "1"
clap = { version = "4", features = ["derive"] }
crossbeam-channel = "0.5"
futures-util = "0.3"
reqwest = { version = "0.12", default-features = false, features = ["json"] }
rusty_link = "0.4"
serde = { version = "1", features = ["derive"] }
serde_json = "1"
tokio = { version = "1", features = ["full"] }
tokio-tungstenite = "0.24"
tracing = "0.1"
tracing-subscriber = { version = "0.3", features = ["env-filter"] }
uuid = { version = "1", features = ["v4"] }
webrtc = "0.12"
webrtc-ice = "0.12"
