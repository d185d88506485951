[package]
name = "markdown_ld"
version = "0.1.0"
edition = "2021"
publish = false

[dependencies]
rustler = "*"
serde_json = "*"
