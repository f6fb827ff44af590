[package]
name = "vsd"
version = "0.1.0"
edition = "2021"
publish = false

[dependencies]
aes = "=0.9.4"
cbc = "=0.2.1"
ctr = "=0.10.1"
cipher = "=0.5.2"
hex = "=0.4.3"
base64 = "=0.23.1"
blake3 = "=1.8.7"
iori-ssa = "=0.2.1"
serde = { version = "=1.0.229", features = ["derive"] }
quick-xml = { version = "=0.42.0", features = ["serialize"] }
glob = "*"
