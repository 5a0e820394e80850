[package]
name = "fuzzcheck"
version = "0.1.0"
edition = "2021"
publish = false

[dependencies]
fastrand = "1"
rand = "0.8"
md5 = "0.7"
serde = { version = "1", features = ["derive"] }
fuzzcheck_common = "*"
