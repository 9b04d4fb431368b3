[package]
name = "imgsync"
version = "0.1.0"
edition = "2021"
publish = false

[dependencies]
chrono = "0.4"
regex = "1"
serde = { version = "1", features = ["derive"] }
toml = "*"
glob = "0.3"
rayon = "1"
indicatif = "*"
