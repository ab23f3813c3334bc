[package]
name = "crystal"
version = "0.1.0"
edition = "2021"
publish = false

[dependencies]
noise = "*"
flume = "*"
crossbeam-channel = "*"
