[package]
name = "reconciler"
version = "0.1.0"
edition = "2021"
publish = false

[dependencies]
petgraph = "*"
nodit = "*"
rand = "0.9"
rand_distr = "0.5"
tokio = { version = "1", features = ["sync", "rt-multi-thread", "macros"] }
log = "0.4"
colog = "*"
chrono = "0.4"
serde = { version = "1", features = ["derive"] }
squareup = "*"
