[package]
name = "gifmonster"
version = "0.1.0"
edition = "2021"
publish = false

[dependencies]
gif = "=0.13.3"
image = { version = "=0.25.10", default-features = false, features = ["png", "jpeg"] }
anyhow = "=1.0.104"
clap = { version = "=4.6.7", features = ["derive"] }
indicatif = "=0.17.11"
rayon = "=1.12.0"
serde = { version = "=1.0.229", features = ["derive"] }
serde_json = "=1.0.154"
napi = { version = "3", features = ["napi4"] }
napi-derive = "3"
