[package]
name = "keycache"
version = "0.1.0"
edition = "2021"
publish = false

[dependencies]
aes-gcm = "0.10"
getrandom = "0.3"
libc = "0.2"
libloading = "0.8"

[dev-dependencies]
asn1_der = "0.7"
serde = "1"
serde_asn1_der = "0.8"
serde_bytes = "0.11"
