[package]
name = "bfv_params"
version = "0.1.0"
edition = "2021"
publish = false

[dependencies]
num-bigint = "0.4"
num-bigint-dig = { version = "0.8", features = ["prime"] }
num-traits = "0.2"
