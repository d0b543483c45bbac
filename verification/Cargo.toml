[package]
name = "partition_election"
version = "0.1.0"
edition = "2021"
publish = false

[dependencies]
z3 = "0.12"
itertools = "0.13"
regex = "1"
log = "0.4"
simplelog = "0.12"
clap = { version = "4", features = ["derive"] }
prettytable-rs = "0.10"
