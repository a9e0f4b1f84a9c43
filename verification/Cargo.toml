[package]
name = "pikachu"
version = "0.1.0"
edition = "2021"
publish = false

[dependencies]
ark-bn254 = "0.4"
ark-ec = "0.4"
ark-ff = "0.4"
ark-serialize = "0.4"
ark-std = "0.4"
rand = "0.8"
base64 = "0.21"
serde_json = "1"
clap = { version = "4", features = ["derive"] }
