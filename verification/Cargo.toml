[package]
name = "maze"
version = "0.1.0"
edition = "2021"
publish = false

[dependencies]
rand = "0.4"
regex = "1"
rustc-serialize = "0.3"
image = { version = "0.24", default-features = false, features = ["png"] }
