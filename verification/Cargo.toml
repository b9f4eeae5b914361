[package]
name = "sh_bot"
version = "0.1.0"
edition = "2021"
publish = false

[dependencies]
time = "0.1"
rustc-serialize = "0.3"
discord = "*"
