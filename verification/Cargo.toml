[package]
name = "qomicex_updater"
version = "0.1.0"
edition = "2021"
publish = false

[dependencies]
base64 = "0.22"
minisign-verify = "0.2"
zip = { version = "2", default-features = false, features = ["deflate"] }
