[package]
name = "plansearch"
version = "0.1.0"
edition = "2021"
publish = false

[dependencies]
itertools = "*"
tracing = "*"
tracing-subscriber = "*"
