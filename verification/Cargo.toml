[package]
name = "aff4_raw_extract"
version = "0.1.0"
edition = "2021"
publish = false

[dependencies]
zip = { version = "*", default-features = false, features = ["deflate"] }
flate2 = "*"
yaml-rust = "*"
clap = { version = "*", features = ["derive"] }
anyhow = "*"
