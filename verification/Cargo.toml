[package]
name = "spanlex"
version = "0.1.0"
edition = "2021"
publish = false

[dependencies]
nom_locate = "*"
