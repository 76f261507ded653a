[package]
name = "twimetravel"
version = "0.1.0"
edition = "2021"
publish = false

[dependencies]
time = "=0.1.45"
env_logger = "=0.11.11"
gotham = "=0.2.1"
gotham_derive = "=0.2.1"
hyper = "=0.11.27"
log = "=0.4.34"
mime = "=0.3.17"
mime_guess = "=2.0.5"
oauthcli = "=1.0.4"
reqwest = { version = "=0.10.10", default-features = false, features = ["blocking", "json"] }
serde = { version = "=1.0.229", features = ["derive"] }
serde_derive = "=1.0.229"
serde_json = "=1.0.154"
serde_urlencoded = "=0.7.1"
toml = "=0.5.11"
url = "=1.7.2"
walkdir = "=2.5.0"
