[package]
name = "akimbo"
version = "0.1.0"
edition = "2021"
publish = false

[dependencies]
bulletformat = "=1.8.0"
