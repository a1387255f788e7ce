[package]
name = "dutree"
version = "0.1.0"
edition = "2021"
publish = false

[dependencies]
md-5 = "*"
clap = { version = "*", features = ["derive"] }
