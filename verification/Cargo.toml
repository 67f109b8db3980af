[package]
name = "safe_regex_rs"
version = "0.2.0"
edition = "2021"
publish = false

[dependencies]
unicode-id-start = "1"
