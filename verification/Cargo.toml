[package]
name = "ivc-checkpoints"
version = "0.1.0"
edition = "2021"
publish = false

[dependencies]
ark-ff = "=0.6.0"
ark-bn254 = "=0.6.0"
ark-ec = "=0.6.0"
ark-std = "=0.6.0"
ark-grumpkin = "=0.6.0"
ark-crypto-primitives = { version = "=0.6.0", features = ["crh", "sponge", "merkle_tree", "constraints"] }
ark-r1cs-std = "=0.6.0"
ark-relations = "=0.6.0"
ark-groth16 = "=0.6.0"
sha3 = "0.10"
hex = "0.4"
anyhow = "1"
clap = { version = "4", features = ["derive"] }
serde_json = "1"
libc = "0.2"
sonobe-primitives = "=0.1.0-alpha.1"
