[package]
name = "solgsn"
version = "0.1.0"
edition = "2021"
publish = false

[dependencies]
num-derive = "=0.5.1"
num-traits = "=0.2.19"
solana-program = "=5.1.0"
solana-system-interface = { version = "=3.3.0", features = ["bincode"] }
thiserror = "=2.0.21"

[dev-dependencies]
borsh = "=1.8.1"
