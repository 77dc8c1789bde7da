[package]
name = "hamsando"
version = "0.1.0"
edition = "2021"
publish = false

[dependencies]
addr = "*"
anyhow = "*"
config = { version = "*", default-features = false, features = ["toml"] }
directories = "*"
env_logger = "*"
itertools = "*"
log = "*"
reqwest = { version = "*", default-features = false, features = ["blocking", "json", "rustls-tls"] }
serde = { version = "*", features = ["derive"] }
serde_json = "*"
thiserror = "*"
url = { version = "*", features = ["serde"] }
