[package]
name = "nexis"
version = "0.2.0"
edition = "2021"
publish = false

[dependencies]
clap = { version = "=4.6.7", features = ["derive"] }
rayon = "=1.12.0"
serde = { version = "=1.0.229", features = ["derive"] }
serde_json = "=1.0.154"
trama = "=0.1.1"
unicase = "=2.10.0"
