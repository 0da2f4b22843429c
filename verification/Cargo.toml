[package]
name = "ecmath"
version = "0.1.0"
edition = "2021"
publish = false

[dependencies]
ark-bn254 = "0.3"
ark-ec = "0.3"
ark-ff = "0.3"
rand = "0.8"
rsa = "*"
sha2 = "*"
base64 = "0.13"
