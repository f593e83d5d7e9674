[package]
name = "jomini"
version = "0.3.0"
edition = "2021"
publish = false

[dev-dependencies]
encoding_rs = "0.8"
