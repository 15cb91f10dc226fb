[package]
name = "ask_anywhere"
version = "0.1.0"
edition = "2021"
publish = false

[dependencies]
anyhow = "*"
base64 = "*"
futures = "*"
reqwest = { version = "*", default-features = false, features = ["json", "stream"] }
serde = { version = "*", features = ["derive"] }
serde_json = "*"
tokio = { version = "*", features = ["rt-multi-thread", "macros"] }
