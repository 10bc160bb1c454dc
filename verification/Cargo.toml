[package]
name = "csrd"
version = "0.1.0"
edition = "2021"
publish = false

[dependencies]
regex = "1"
unidecode = "0.3"
serde = { version = "1", features = ["derive"] }
serde_json = "1"
time = { version = "0.3", features = ["serde", "formatting", "parsing"] }
crossbeam = "0.8"
derive_builder = "0.20"
itertools = "0.13"
