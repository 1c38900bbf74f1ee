[package]
name = "rar"
version = "0.1.0"
edition = "2021"
publish = false

[dependencies]
aes = "*"
crc32fast = "*"
hmac = "*"
rand = "*"
rayon = "*"
sha2 = "*"
zeroize = "*"
