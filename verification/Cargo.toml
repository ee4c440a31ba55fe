[package]
name = "flavortown_tracker"
version = "0.1.0"
edition = "2021"
publish = false

[dependencies]
sled = "*"
reqwest = { version = "*", default-features = false, features = ["blocking", "json", "multipart", "rustls-tls"] }
serde = { version = "*", features = ["derive"] }
serde_json = "*"
scraper = "*"
slack-morphism = "*"
color-eyre = "*"
log = "*"
env_logger = "*"
dotenvy = "*"
envy = "*"
