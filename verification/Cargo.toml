[package]
name = "btclib"
version = "0.1.0"
edition = "2021"
publish = false

[dependencies]
argh = "=0.1.19"
chrono = "=0.4.45"
ecdsa = { version = "=0.16.9", features = ["signing", "verifying"] }
hex = "=0.4.3"
k256 = { version = "=0.13.4", features = ["ecdsa", "pem"] }
rand = "=0.8.8"
sha256 = "=1.6.0"
spki = "=0.7.3"
uuid = { version = "=1.27.0", features = ["v4"] }
