[package]
name = "atat"
version = "0.1.0"
edition = "2021"
publish = false

[dependencies]
embassy-time = { version = "0.4", features = ["std"] }
embassy-futures = "0.1"
embedded-io-async = "0.6"
syn = { version = "2", features = ["full"] }
quote = "1"
proc-macro2 = "1"
