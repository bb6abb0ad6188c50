[package]
name = "rsonpath_rewrite"
version = "0.1.0"
edition = "2021"
publish = false

[dependencies]
serde_json = { version = "=1.0.154", features = ["preserve_order"] }
rsonpath-syntax = "=0.4.2"
