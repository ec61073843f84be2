[package]
name = "signmaker"
version = "0.1.0"
edition = "2021"
publish = false

[dependencies]
byteorder = "1"
linked-hash-map = "0.5"
ril = { version = "*", features = ["png", "text"] }
unidecode = "*"
