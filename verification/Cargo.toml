[package]
name = "validator_list"
version = "0.1.0"
edition = "2021"
publish = false

[dependencies]
arrayref = "=0.3.9"
borsh = "=0.9.3"
solana-program = "=1.14.29"
spl-stake-pool = "=0.6.4"
