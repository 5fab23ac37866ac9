[package]
name = "lockbook"
version = "0.1.0"
edition = "2021"
publish = false

[dependencies]
cli-rs = "*"
colored = "2"
ort = { version = "=2.0.0-rc.10", default-features = false, features = ["std", "load-dynamic"] }
reqwest = { version = "0.12", default-features = false, features = ["rustls-tls"] }
serde = { version = "1", features = ["derive"] }
serde_json = "1"
tokenizers = "0.21"
tokio = { version = "1", features = ["rt-multi-thread", "macros"] }
