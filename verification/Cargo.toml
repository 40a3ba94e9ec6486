[package]
name = "rg_replace"
version = "0.1.0"
edition = "2021"
publish = false

[dependencies]
base64 = "0.13"
clap = "2"
serde_json = "1"
