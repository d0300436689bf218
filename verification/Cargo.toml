[package]
name = "plonkit"
version = "0.1.0"
edition = "2021"
publish = false

[dependencies]
anyhow = "1"
bellman_ce = "*"
byteorder = "1"
itertools = "*"
num-bigint = "*"
num-traits = "*"
rand = "0.4"
serde = { version = "1", features = ["derive"] }
serde_json = "1"
