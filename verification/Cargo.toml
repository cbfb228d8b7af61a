[package]
name = "m365backup_core"
version = "0.1.0"
edition = "2021"
publish = false

[dependencies]
aes-gcm = "*"
anyhow = "*"
argon2 = "*"
async-trait = "*"
blake3 = "*"
bytes = "*"
chrono = "*"
clap = { version = "*", features = ["derive"] }
dirs = "*"
fastcdc = "*"
hex = "*"
indicatif = "*"
rand = "0.8"
reqwest = { version = "*", default-features = false, features = ["json", "rustls-tls"] }
rust-s3 = "*"
serde = { version = "*", features = ["derive"] }
serde_json = "*"
tokio = { version = "*", features = ["full"] }
toml = "*"
tracing = "*"
tracing-subscriber = { version = "*", features = ["env-filter"] }
uuid = { version = "*", features = ["v4"] }
