[package]
name = "update_schema"
version = "0.1.0"
edition = "2021"
publish = false

[dependencies]
async-trait = "0.1"
chrono = "0.4"
fastnum = "*"
serde_json = "1"
tracing = "0.1"
typed-builder = "*"
