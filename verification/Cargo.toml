[package]
name = "oxi"
version = "0.1.0"
edition = "2021"
publish = false

[dependencies]
base64 = "0.22"
console = "=0.15.11"
crossterm = "=0.27.0"
ed25519-dalek = "2"
rand = "=0.8.8"
serde = { version = "=1.0.229", features = ["derive"] }
serde_json = "=1.0.154"
sha2 = "=0.10.9"
strsim = "=0.11.1"
users = "=0.11.0"
walkdir = "=2.5.0"
