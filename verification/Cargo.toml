[package]
name = "relayer"
version = "0.1.0"
edition = "2021"
publish = false

[dependencies]
agave-banking-stage-ingress-types = { version = "=4.2.2", features = ["agave-unstable-api"] }
arc-swap = "1"
bincode = "=1.3.3"
chrono = "0.4"
clap = { version = "4", features = ["derive"] }
crossbeam-channel = "0.5"
dashmap = "=5.5.3"
futures-util = "0.3"
histogram = "0.6"
log = "0.4"
num_cpus = "1"
prost-types = "0.13"
rayon = "=1.12.0"
reqwest = { version = "=0.12.28", default-features = false, features = ["json", "stream"] }
serde = { version = "1", features = ["derive"] }
serde_json = "1"
solana-hash = { version = "=4.5.0", features = ["atomic", "copy", "decode"] }
solana-instruction = "=3.4.1"
solana-keypair = "=3.1.2"
solana-message = { version = "=4.4.1", features = ["wincode", "serde"] }
solana-metrics = { version = "=4.2.2", features = ["agave-unstable-api"] }
solana-perf = { version = "=4.2.2", features = ["agave-unstable-api"] }
solana-pubkey = "=4.2.1"
solana-sha256-hasher = { version = "=3.1.0", features = ["sha2"] }
solana-signer = "=3.0.1"
solana-transaction = { version = "=4.1.6", features = ["wincode", "serde"] }
tokio = { version = "1", features = ["macros", "rt-multi-thread", "sync", "time"] }
tokio-stream = "0.1"
tonic = { version = "0.12", default-features = false }
wincode = "=0.5.5"
