[package]
name = "microvm-warm-pool"
version = "0.1.0"
edition = "2021"
publish = false

[dependencies]
microvm-runtime = "=0.4.0-alpha.3"
