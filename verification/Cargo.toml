[package]
name = "paradox_mod_translator"
version = "0.1.0"
edition = "2021"
publish = false

[dependencies]
regex = "1"
serde_json = "1"
tokio = { version = "1", features = ["rt", "rt-multi-thread", "sync", "macros"] }
walkdir = "2"
log = "0.4"
ftail = "*"
