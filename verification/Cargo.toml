[package]
name = "ring_lwe"
version = "0.1.0"
edition = "2021"
publish = false

[dependencies]
base64 = "0.22"
bincode = "1"
ntt = "*"
rand = "0.8"
rand_distr = "0.4"
clap = { version = "4", features = ["derive"] }
