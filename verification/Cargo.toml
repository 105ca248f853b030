[package]
name = "hotreload"
version = "0.1.0"
edition = "2021"
publish = false

[dependencies]
rustpython-parser = "*"
regex = "*"
uuid = { version = "*", features = ["v4"] }
tempfile = "*"
walkdir = "*"
libc = "*"
