[package]
name = "keymidi"
version = "0.1.0"
edition = "2021"
publish = false

[dependencies]
midir = "0.7.0"
device_query = "*"
