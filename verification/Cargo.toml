[package]
name = "fist"
version = "0.1.0"
edition = "2021"
publish = false

[dependencies]
rust-crypto = "0.2"
base64 = "0.13"
dashmap = "5"
serde = { version = "1", features = ["derive"] }
serde_json = "1"
anyhow = "1"
actix-web = "4"
tokio = { version = "1", features = ["full"] }
futures = "0.3"
reqwest = { version = "0.11", default-features = false, features = ["json"] }
config = "0.11"
log = "0.4"
env_logger = "0.10"
lazy_static = "1"
