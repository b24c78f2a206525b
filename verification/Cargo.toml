[package]
name = "halo"
version = "0.1.0"
edition = "2021"
publish = false

[dependencies]
ark-ff = "0.5"
ark-ec = "0.5"
ark-pallas = "0.5"
ark-vesta = "0.5"
ark-poly = "0.5"
ark-serialize = "0.5"
ark-std = "0.5"
petgraph = "*"
sha3 = "0.10"
rand = "0.8"
bincode = "2"
anyhow = "1"
