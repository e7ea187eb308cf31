[package]
name = "dekube"
version = "0.1.0"
edition = "2021"
publish = false

[dependencies]
shellexpand = "*"
anyhow = "*"
log = "*"
env_logger = "*"
thiserror = "*"
clap = { version = "*", features = ["derive"] }
serde = { version = "*", features = ["derive"] }
reqwest = { version = "*", default-features = false, features = ["blocking", "json", "rustls-tls"] }
rusqlite = { version = "*", features = ["bundled"] }
tokio = { version = "*", features = ["rt-multi-thread", "macros"] }
aws-config = "*"
aws-sdk-s3 = "*"
