[package]
name = "exa"
version = "0.1.0"
edition = "2021"
publish = false

[dependencies]
fastrand = "*"
fletcher = "*"
miniz_oxide = "*"
itertools = "*"
image = { version = "*", default-features = false, features = ["png"] }
