[package]
name = "smdbc"
version = "0.1.0"
edition = "2021"
publish = false

[dependencies]
base64 = "=0.22.1"
bit-set = "=0.8.0"
chrono = { version = "=0.4.45", default-features = false, features = ["alloc"] }
hex = "=0.4.3"
regex = "=1.13.1"
sha1 = "=0.10.7"
sha2 = "=0.10.9"
trash = "5"
