[package]
name = "oven"
version = "0.1.0"
edition = "2021"
publish = false

[dependencies]
clap = "=4.6.7"
console = "=0.16.6"
indicatif = "=0.18.6"
rand = "=0.10.3"
rayon = "=1.12.0"
roxmltree = "=0.21.1"
serde = { version = "=1.0.229", features = ["derive"] }
serde_json = "=1.0.151"
xml = "=1.4.0"
