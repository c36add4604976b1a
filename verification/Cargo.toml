[package]
name = "ip_lib"
version = "0.1.0"
edition = "2021"
publish = false

[dependencies]
aes-gcm = "0.10"
sha2 = "0.10"
brotli = "*"
home = "*"
rpassword = "*"

[dev-dependencies]
hex = "0.4"
