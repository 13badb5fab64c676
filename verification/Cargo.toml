[package]
name = "webhook_core"
version = "0.1.0"
edition = "2021"
publish = false

[dependencies]
axum = "*"
log = "*"
pretty_env_logger = "*"
takecell = "=0.1.1"
teloxide = { version = "*", default-features = false, features = ["rustls"] }
tokio = { version = "*", features = ["full"] }
