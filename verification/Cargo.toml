[package]
name = "quasi_interval"
version = "0.1.0"
edition = "2021"
publish = false

[dependencies]
thiserror = "*"
