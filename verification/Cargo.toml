[package]
name = "prefix_analyzer"
version = "0.1.0"
edition = "2021"
publish = false

[dependencies]
clap = { version = "*", features = ["derive"] }
color-eyre = "*"
indicatif = "*"
num_cpus = "*"
rayon = "*"
redis = "*"
regex = "*"
rustls = { version = "*", default-features = false, features = ["ring", "logging", "std", "tls12"] }
serde = { version = "*", features = ["derive"] }
serde_json = "*"
