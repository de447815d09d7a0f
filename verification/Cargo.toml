[package]
name = "docx_opencc"
version = "0.1.0"
edition = "2021"
publish = false

[dependencies]
libc = "0.2"
zip = { version = "0.5", default-features = false, features = ["deflate"] }
