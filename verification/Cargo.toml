[package]
name = "bmp_rib"
version = "0.1.0"
edition = "2021"
publish = false

[dependencies]
regex = "*"
zettabgp = "*"
tokio = { version = "*", features = ["full"] }
tokio-util = { version = "*", features = ["codec"] }
futures-util = "*"
anyhow = "*"
serde = "*"
async-trait = "*"
