[package]
name = "minocrab_std"
version = "0.1.0"
edition = "2021"
publish = false

[dependencies]
midnight-base-crypto = "=1.0.2"
midnight-onchain-state = "=3.0.2"
midnight-serialize = "=1.1.1"
midnight-storage = "=2.0.3"
midnight-transient-crypto = "=2.1.1"
proc-macro2 = "1"
quote = "1"
syn = "2"

[dev-dependencies]
midnight-onchain-vm = "=3.1.2"
