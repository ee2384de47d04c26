[package]
name = "psi"
version = "0.1.0"
edition = "2021"
publish = false

[dependencies]
ring = "=0.17.14"
ndarray = "=0.15.6"
crypto-bigint = "=0.5.5"
itertools = "=0.11.0"
rand = "=0.8.8"
rand_chacha = "=0.3.1"
rayon = "=1.12.0"
serde = { version = "=1.0.229", features = ["derive"] }
bincode = "=1.3.3"
prost = "=0.12.6"
tokio = { version = "=1.54.1", features = ["full"] }
clap = { version = "=4.6.7", features = ["derive"] }
