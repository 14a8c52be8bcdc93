[package]
name = "dht_node"
version = "0.1.0"
edition = "2021"
publish = false

[dependencies]
farmhash = "*"
priority-queue = "*"
rand = "0.8"
crossbeam = "*"
clap = { version = "4", features = ["derive"] }
log = "*"
