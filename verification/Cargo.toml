[package]
name = "aliyunddns"
version = "0.1.0"
edition = "2021"
publish = false

[dependencies]
base64 = "=0.13.1"
chrono = "=0.4.45"
clap = "2"
rust-crypto = "=0.2.36"
log = "0.4"
nanoid = "=0.4.0"
percent-encoding = "=2.3.2"
reqwest = { version = "0.11", default-features = false, features = ["json"] }
serde = { version = "1", features = ["derive"] }
serde_json = "1"
simplelog = "0.7"
tokio = { version = "1", features = ["rt-multi-thread", "macros", "time"] }
url = "2"
