[package]
name = "tket2"
version = "0.1.0"
edition = "2021"
publish = false

[dependencies]
fxhash = "0.2"
crossbeam-channel = "0.5"
rayon = "1"
num_cpus = "1"
serde = { version = "1", features = ["derive"] }
serde_json = "1"
tket-json-rs = "*"
