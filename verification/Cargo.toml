[package]
name = "pybytes"
version = "0.1.0"
edition = "2021"
publish = false

[dependencies]
bstr = "0.2"
num-bigint = "0.2"
num-integer = "0.1"
num-traits = "0.2"
