[package]
name = "ludwig"
version = "0.1.0"
edition = "2021"
publish = false

[dependencies]
route-recognizer = "*"
http-types = "*"
async-h1 = "*"
async-std = { version = "*", features = ["attributes"] }
futures = "*"
anyhow = "*"
