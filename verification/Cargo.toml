[package]
name = "wtp"
version = "0.1.0"
edition = "2021"
publish = false

[dependencies]
directories = "*"
inquire = "*"
