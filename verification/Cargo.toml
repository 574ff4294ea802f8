[package]
name = "magicsquare"
version = "0.1.0"
edition = "2021"
publish = false

[dependencies]
chan = "*"
chan-signal = "*"
chrono = "0.4"
num_cpus = "1"
serde = "1"
serde_derive = "1"
serde_json = "1"
