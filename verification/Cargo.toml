[package]
name = "discv5_parallel"
version = "0.1.0"
edition = "2021"
publish = false

[dependencies]
enr = { version = "*", features = ["k256", "ed25519"] }
secp256k1 = "*"
bs58 = "*"

[dev-dependencies]
multiaddr = "*"
