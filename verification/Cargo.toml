[package]
name = "detr"
version = "0.1.0"
edition = "2021"
publish = false

[dependencies]
anyhow = "*"
clap = { version = "*", features = ["derive"] }
directories = "*"
either = "*"
indicatif = "*"
mktemp = "*"
regex = "*"
reqwest = { version = "*", default-features = false, features = ["blocking", "json", "rustls-tls"] }
ron = "*"
serde = { version = "*", features = ["derive"] }
serde_json = "*"
