[package]
name = "ntstrings2dict"
version = "0.1.0"
edition = "2021"
publish = false

[dependencies]
arrow = { version = "*", default-features = false }
tokio = { version = "*", features = ["fs", "io-util", "rt-multi-thread", "macros"] }
