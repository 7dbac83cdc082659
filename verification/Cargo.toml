[package]
name = "eqn"
version = "0.1.0"
edition = "2021"
publish = false

[dependencies]
num-bigint = "=0.5.1"
num-integer = "=0.1.47"
