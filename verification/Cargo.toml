[package]
name = "candid"
version = "0.1.0"
edition = "2021"
publish = false

[dependencies]
ic-types = "=0.3.0"
