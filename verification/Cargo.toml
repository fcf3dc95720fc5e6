[package]
name = "rust_bot"
version = "0.1.0"
edition = "2021"
publish = false

[dependencies]
regex = "1"
ahash = "0.8"
itertools = "*"
serde = { version = "1", features = ["derive"] }
serde_json = "1"
log = "0.4"
colored = "*"
fraction = "*"
tokio = { version = "1", features = ["rt-multi-thread", "macros", "io-std", "io-util", "sync", "time"] }
futures = "0.3"
reqwest = "*"
tokio-tungstenite = "*"
dotenvy = "*"
rand = "*"
rand_chacha = "*"
