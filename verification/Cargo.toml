[package]
name = "debordostat"
version = "0.1.0"
edition = "2021"
publish = false

[dependencies]
rand = "0.9"
rand_mt = "5"
rayon = "1"
serde = { version = "1", features = ["derive"] }
toml = "0.8"
