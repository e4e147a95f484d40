[package]
name = "mineore"
version = "0.1.0"
edition = "2021"
publish = false

[dependencies]
bincode = "1.3"
bs58 = "0.5"
cached = "0.46"
clap = { version = "4", features = ["derive"] }
colored = "2"
core_affinity = "0.8"
drillx = { version = "2", features = ["solana"] }
ore-api = "~2.1"
ore-utils = "~2.1"
rand = "0.8"
serde = { version = "1", features = ["derive"] }
solana-program = "1.18"
solana-sdk = "1.18"
spl-associated-token-account = { version = "2.3", features = ["no-entrypoint"] }
tokio = { version = "1", features = ["io-util", "macros", "net", "rt-multi-thread", "sync", "time"] }
