[package]
name = "treecat"
version = "0.1.0"
edition = "2021"
publish = false

[dependencies]
clap = { version = "*", features = ["derive"] }
crossbeam-channel = "*"
flate2 = "*"
lsx = "*"
num_cpus = "*"
wax = "*"
