[package]
name = "sidecar"
version = "0.1.0"
edition = "2021"
publish = false

[dependencies]
serde = { version = "=1.0.229", features = ["derive"] }
serde_json = "=1.0.154"
git2 = { version = "=0.21.0", default-features = false }
http = "=1.5.0"
keyring = "=3.6.3"
notify = { version = "=8.2.1", default-features = false }
octocrab = "=0.44.1"
portable-pty = "=0.9.0"
secrecy = "=0.10.3"
