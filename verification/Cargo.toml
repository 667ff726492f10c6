[package]
name = "fpoc"
version = "0.1.0"
edition = "2021"
publish = false

[dependencies]
argon2 = "0.5"
bincode = "1.3"
bs58 = "0.5"
chrono = "0.4"
dirs = "5"
hex = "0.4"
lazy_static = "1"
parking_lot = "0.12"
rand = "0.8"
ripemd = "0.1"
rocksdb = "0.22"
secp256k1 = { version = "0.29", features = ["rand-std"] }
serde = { version = "1", features = ["derive"] }
serde_json = "1"
sha2 = "0.10"
tokio = { version = "1", features = ["full"] }
toml = "0.8"
warp = "0.3"
