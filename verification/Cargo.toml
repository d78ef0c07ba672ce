[package]
name = "battle_net_manager"
version = "0.1.0"
edition = "2021"
publish = false

[dependencies]
base64 = "0.22"
chrono = "0.4"
uuid = { version = "1", features = ["v4"] }
serde = { version = "1", features = ["derive"] }
serde_json = "1"
url = "2"
dirs = "5"
dunce = "1"
walkdir = "2"
tokio = { version = "1", features = ["rt", "rt-multi-thread", "time", "macros"] }
opener = "0.7"
winreg = "0.52"
