[package]
name = "binlearn"
version = "0.1.0"
edition = "2021"
publish = false

[dependencies]
argh = "0.1"
csv = "1"
num-bigint = "0.4"
rand = "0.8"
serde = { version = "1", features = ["derive"] }
