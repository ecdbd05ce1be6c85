[package]
name = "cpac"
version = "0.3.0"
edition = "2021"
publish = false

[dependencies]
blake3 = "=1.8.7"
zstd = "=0.13.4"
xxhash-rust = { version = "=0.8.19", features = ["xxh64"] }
aes-gcm = "=0.10.3"
chacha20poly1305 = "=0.10.1"
rand = "=0.8.8"
argon2 = "=0.5.3"
hkdf = "=0.12.4"
sha2 = "=0.10.9"
x25519-dalek = { version = "=2.0.1", features = ["static_secrets"] }
ed25519-dalek = { version = "=2.2.0", features = ["rand_core"] }
ml-kem = { version = "=0.2.3", features = ["deterministic"] }
ml-dsa = "=0.1.2"
pqcrypto-hqc = "=0.2.2"
pqcrypto-traits = "=0.3.5"
serde = { version = "=1.0.229", features = ["derive"] }
serde_json = "=1.0.154"
serde_yaml = "=0.9.34"
toml = "=0.8.23"
sysinfo = "=0.40.1"
