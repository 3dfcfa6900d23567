[package]
name = "relay_bp"
version = "0.1.0"
edition = "2021"
publish = false

[dependencies]
sprs = "0.11"
ndarray = "0.16"
rand = "0.8"
rand_distr = "0.4"
rayon = "1"
indicatif = { version = "0.17", features = ["rayon"] }
itertools = "*"
num-traits = "0.2"
log = "0.4"
dyn-clone = "1"
serde = { version = "1", features = ["derive"] }
