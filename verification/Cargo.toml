[package]
name = "duckception"
version = "0.1.0"
edition = "2021"
publish = false

[dependencies]
regex = "1"
uuid = { version = "0.8", features = ["v4"] }
mime_guess = "2"
headers = "0.3"
hyper = "0.13"
tokio = { version = "0.2", features = ["full"] }
tokio-tungstenite = "0.10"
tungstenite = "0.10"
futures = "0.3"
log = "0.4"
env_logger = "0.7"
tui = { version = "0.14", default-features = false, features = ["termion"] }
termion = "1"
url = "2"
