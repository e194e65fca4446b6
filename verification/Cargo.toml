[package]
name = "websave-core"
version = "0.1.0"
edition = "2021"
publish = false

[dependencies]
base64 = "=0.22.1"
csv = "=1.4.0"
url = "=2.5.8"
sha2 = "=0.10.9"
rusqlite = { version = "=0.32.1", features = ["bundled"] }
ureq = "=2.12.1"
tiny_http = "0.12"
serde = { version = "=1.0.229", features = ["derive"] }
serde_json = "=1.0.154"
log = "=0.4.35"
thiserror = "=1.0.69"
