[package]
name = "lithophoto"
version = "0.1.0"
edition = "2021"
publish = false

[dependencies]
clap = "2"
image = { version = "0.24", default-features = false, features = ["png"] }
indicatif = "0.17"
