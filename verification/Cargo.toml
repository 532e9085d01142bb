[package]
name = "asset_registry"
version = "0.1.0"
edition = "2021"
publish = false

[dependencies]
hex = "=0.4.3"
log = "=0.4.34"
parity-scale-codec = { version = "=3.7.5", features = ["derive"] }
scale-info = { version = "=2.11.6", features = ["derive"] }
serde = { version = "=1.0.229", features = ["derive"] }
serde_json = "=1.0.154"
sp-core = "=43.0.0"
sp-crypto-hashing = "=0.1.0"
sp-io = "=49.0.0"
sp-runtime = "=49.0.0"
frame-support = "=49.0.0"
frame-system = "=49.0.0"
