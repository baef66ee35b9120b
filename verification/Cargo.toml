[package]
name = "airplane_landing_scheduler"
version = "0.1.0"
edition = "2021"

[dependencies]
rand = "0.8"
