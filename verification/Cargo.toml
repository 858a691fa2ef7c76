[package]
name = "rebar"
version = "0.1.0"
edition = "2021"
publish = false

[dependencies]
time = "0.1"
serde = { version = "*", features = ["derive"] }
serde_json = "*"
nickel = "*"
hyper = "0.10"
