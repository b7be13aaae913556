[package]
name = "file_auth"
version = "0.1.0"
edition = "2021"
publish = false

[dependencies]
getopts = "0.2"
hex = "0.4"
sha2 = "0.10"
