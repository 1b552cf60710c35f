[package]
name = "rummy"
version = "0.1.0"
edition = "2021"
publish = false

[dependencies]
rand = "=0.8.8"
rprompt = "=2.2.0"
chrono = "=0.4.45"
