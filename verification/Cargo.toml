[package]
name = "http_lolo"
version = "0.1.0"
edition = "2021"
publish = false

[dependencies]
httparse = "*"
json = "*"
libc = "*"
multipart = { version = "*", default-features = false, features = ["server"] }
