[package]
name = "fastlanes"
version = "0.1.0"
edition = "2021"
publish = false

[dependencies]
arrayref = "0.3"
num-traits = "0.2"
