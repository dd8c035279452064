[package]
name = "pikku"
version = "0.1.0"
edition = "2021"
publish = false

[dependencies]
rand = { version = "=0.9.5", features = ["small_rng"] }
rayon = "1"
incomplete-rexl = "=0.1.0"
