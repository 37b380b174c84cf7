[package]
name = "ohkami"
version = "0.1.0"
edition = "2021"
publish = false

[dependencies]
percent-encoding = "=2.3.2"
serde = "=1.0.229"
serde_json = "=1.0.154"
async-std = "=1.13.2"
worker = "=0.8.7"
proc-macro2 = "=1.0.107"
quote = "=1.0.47"
syn = { version = "=2.0.119", features = ["full"] }
