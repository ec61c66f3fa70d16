[package]
name = "aurora"
version = "0.1.0"
edition = "2021"
publish = false

[dependencies]
hmac = "=0.12.1"
sha2 = "=0.10.9"
flate2 = "=1.1.10"
rustls = "=0.23.46"
webpki-roots = "=0.26.11"
url = "2"
k256 = { version = "0.13", features = ["ecdsa", "pem"] }
base64ct = { version = "1", features = ["alloc"] }
chrono = { version = "0.4", default-features = false, features = ["clock", "std"] }
serde_json = "1"
serde = { version = "1", features = ["derive"] }
