[package]
name = "llmao"
version = "0.1.0"
edition = "2021"
publish = false

[dependencies]
serde = { version = "*", features = ["derive"] }
serde_json = "*"
reqwest = { version = "*", default-features = false, features = ["json", "stream"] }
tokio = { version = "*", features = ["rt", "time", "macros"] }
futures = "*"
bytes = "*"
dirs = "*"
dotenvy = "*"
parking_lot = "*"
