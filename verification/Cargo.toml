[package]
name = "jabu"
version = "0.1.0"
edition = "2021"
publish = false

[dependencies]
url = "=2.5.8"
xml-rs = "=0.8.29"
reqwest = { version = "=0.12.28", features = ["blocking"] }

[dev-dependencies]
tempdir = "=0.3.7"
