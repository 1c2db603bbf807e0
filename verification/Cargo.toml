[package]
name = "v4flash_het"
version = "0.1.0"
edition = "2021"
publish = false

[dependencies]
serde_json = "=1.0.154"
tracing = "=0.1.44"
color-eyre = "=0.6.5"
