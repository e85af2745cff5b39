[package]
name = "eaplanner"
version = "0.1.0"
edition = "2021"
publish = false

[dependencies]
rand = "0.8"
rand_distr = "0.4"
csv = "1"
chrono = "0.4"
serde_json = "1"
clap = { version = "4", features = ["derive"] }
