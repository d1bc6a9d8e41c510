[package]
name = "seed_split"
version = "0.1.0"
edition = "2021"
publish = false

[dependencies]
bip39 = "2"
rand_core = { version = "0.6", features = ["getrandom"] }
subtle = "2"
structopt = "0.3"
