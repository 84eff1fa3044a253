[package]
name = "puccinia"
version = "0.1.0"
edition = "2021"
publish = false

[dependencies]
rand = "=0.6.5"
crossbeam-channel = "=0.3.9"
futures = "=0.1.31"
tokio = "=0.1.22"
cursive = { version = "0.21", default-features = false, features = ["termion-backend"] }
