[package]
name = "spielrs_diff"
version = "0.2.0"
edition = "2021"
publish = false

[dependencies]
async-trait = "0.1"
futures = "0.3"
tokio = { version = "0.2", default-features = false, features = ["fs", "stream"] }
