[package]
name = "euler"
version = "0.1.0"
edition = "2021"
publish = false

[dependencies]
num = "0.4"
itertools = "0.13"
