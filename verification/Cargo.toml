[package]
name = "logkv"
version = "0.1.0"
edition = "2021"
publish = false

[dependencies]
tokio = { version = "1", features = ["fs", "io-util", "rt-multi-thread", "macros"] }
async-trait = "0.1"
