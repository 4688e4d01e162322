[package]
name = "futures_tutorial"
version = "0.1.0"
edition = "2021"
publish = false

[dependencies]
rust-crypto = "=0.2.36"
futures = "=0.1.31"
crossbeam-channel = "=0.5.17"
hex-slice = "=0.1.4"
