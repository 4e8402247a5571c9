[package]
name = "respawn"
version = "0.1.0"
edition = "2021"
publish = false

[dependencies]
blake3 = "=1.8.7"
clap = { version = "=4.6.7", features = ["derive"] }
ed25519-dalek = "=2.2.0"
fastcdc = "=3.2.1"
getrandom = "=0.2.17"
hex = "=0.4.3"
notify = "=6.1.1"
security-framework = "2"
serde = { version = "=1.0.229", features = ["derive"] }
serde_json = "=1.0.154"
snow = "=0.9.6"
walkdir = "=2.5.0"
zstd = "=0.13.4"
