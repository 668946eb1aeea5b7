[package]
name = "histdiff"
version = "0.1.0"
edition = "2021"
publish = false

[dependencies]
clap = { version = "4", features = ["derive"] }
csv = "1"
dashmap = "6"
ndarray = "0.16"
rayon = "1"
