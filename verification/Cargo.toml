[package]
name = "srtp"
version = "0.1.0"
edition = "2021"
publish = false

[dependencies]
aes = "0.8"
ctr = "0.9"
fixedbitset = "0.4"
handy_async = "0.2"
hmac = "0.12"
sha1 = "0.10"
