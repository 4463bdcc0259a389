[package]
name = "json-signer"
version = "0.1.0"
edition = "2021"
publish = false

[dependencies]
anyhow = "1"
base64 = "0.22"
chrono = "0.4"
clap = { version = "4", features = ["derive"] }
ed25519-dalek = { version = "2", features = ["pkcs8", "rand_core"] }
json-canon = "0.1"
pem = "3"
rand = "0.8"
rsa = "0.9"
serde = "1"
serde_json = "1"
sha2 = { version = "0.10", features = ["oid"] }
signature = "2"
spki = "0.7"
