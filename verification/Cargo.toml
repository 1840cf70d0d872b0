[package]
name = "bindle_utils"
version = "0.1.0"
edition = "2021"
publish = false

[dependencies]
bindle = { version = "*", default-features = false, features = ["client"] }
reqwest = { version = "0.11", default-features = false }
async-trait = "*"
