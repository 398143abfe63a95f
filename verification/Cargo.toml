[package]
name = "lapin_core"
version = "0.1.0"
edition = "2021"
publish = false

[dependencies]
futures = "0.1"
tokio-io = "0.1"
