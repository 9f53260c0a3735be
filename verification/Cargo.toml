[package]
name = "zip_in_png"
version = "0.1.0"
edition = "2021"
publish = false

[dependencies]
crc-any = "=3.1.0"
zip = { version = "=8.6.0", default-features = false, features = ["deflate-flate2-zlib-rs"] }
clap = "=4.6.7"
