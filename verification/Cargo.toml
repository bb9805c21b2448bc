[package]
name = "html2md_rs"
version = "0.1.0"
edition = "2021"
publish = false

[dependencies]
percent-encoding = "2"
