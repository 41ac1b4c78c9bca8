[package]
name = "ihtc_scheduler"
version = "0.1.0"
edition = "2021"
publish = false

[dependencies]
minilp = "*"
rand = "*"
serde = { version = "*", features = ["derive"] }
serde_json = "*"
itertools = "*"
