[package]
name = "csrre_core"
version = "0.1.0"
edition = "2021"
publish = false

[dependencies]
anyhow = "1"
egg = "0.9"
env_logger = "0.11"
fnv = "1"
graphica = "*"
log = "0.4"
ndarray = "*"
numerica = "*"
petgraph = "0.6"
rand = "0.8"
rand_distr = "0.4"
serde = { version = "1", features = ["derive"] }
serde_json = "1"
smallvec = "1"
z3 = "0.12"
