[package]
name = "audis"
version = "0.2.1"
edition = "2021"
publish = false

[dependencies]
redis = "*"
clap = "2"
rand = "0.8"
