[package]
name = "kvs"
version = "0.1.0"
edition = "2021"
publish = false

[dependencies]
clap = "2.33"
failure = "0.1"
serde_json = "1"
