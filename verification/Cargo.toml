[package]
name = "ssh_manager"
version = "0.1.0"
edition = "2021"
publish = false

[dependencies]
regex = "1"
serde = { version = "1", features = ["derive"] }
serde_json = "1"
dirs = "6"
chrono = "0.4"
thiserror = "2"
git2 = "0.20"
keyring = "3"
ssh2 = "0.9"
sentry = { version = "0.46", default-features = false }
