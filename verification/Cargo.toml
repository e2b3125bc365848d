[package]
name = "adblock"
version = "0.1.0"
edition = "2021"
publish = false

[dependencies]
addr = { version = "=0.15.6", default-features = false, features = ["psl"] }
base64 = "=0.13.1"
flate2 = "=1.1.10"
idna = "=1.1.0"
idna_adapter = "~1.1"
regex = "=1.13.1"
