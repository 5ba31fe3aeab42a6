[package]
name = "oink"
version = "0.1.0"
edition = "2021"
publish = false

[dependencies]
anyhow = "*"
clap = { version = "*", features = ["derive"] }
image = { version = "*", default-features = false, features = ["png"] }
indicatif = "*"
rand = "*"
rayon = "*"
serde = { version = "*", features = ["derive"] }
serde_json = "*"
sha3 = "*"
