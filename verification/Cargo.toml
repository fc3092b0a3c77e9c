[package]
name = "minigit"
version = "0.1.0"
edition = "2021"

[dependencies]
chrono = "0.4"
flate2 = "1"
rust-crypto = "0.2.36"
