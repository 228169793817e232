[package]
name = "pokerkit"
version = "0.1.0"
edition = "2021"
publish = false

[dependencies]
itertools = "0.12"
rand = "0.8"
chrono = "0.4"
num-bigint = "0.4"
rust_decimal = "1"
once_cell = "1"
