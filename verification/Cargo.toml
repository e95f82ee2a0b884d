[package]
name = "xmip-core-contract-json-schema"
version = "0.1.0"
edition = "2021"
publish = false

[dependencies]
serde_json = "1"
regex = "1"
