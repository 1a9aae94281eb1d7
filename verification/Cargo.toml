[package]
name = "lettergen"
version = "0.1.0"
edition = "2021"
publish = false

[dependencies]
regex-lite = "*"
clap = { version = "*", features = ["derive"] }
colored = "*"
rayon = "*"
