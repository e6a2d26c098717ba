[package]
name = "toakue"
version = "0.1.0"
edition = "2021"
publish = false

[dependencies]
unicode-normalization = "0.1"
regex = "1"
jiff = "0.2"
indexmap = "2"
itertools = "0.14"
serde = { version = "1", features = ["derive"] }
serde_json = "1"
rayon = "1"
chrono = "0.4"
reqwest = { version = "0.12", features = ["blocking"] }
