[package]
name = "url_threat_shortener"
version = "0.1.0"
edition = "2021"
publish = false

[dependencies]
url = "2"
strsim = "0.11"
rand = "0.8"
serde = { version = "1", features = ["derive"] }
serde_json = "1"
clap = { version = "4", features = ["derive"] }
dialoguer = "0.11"
