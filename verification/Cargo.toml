[package]
name = "algs4"
version = "0.1.0"
edition = "2021"
publish = false

[dependencies]
rand = "0.9"
fnv = "1"
ethnum = "1"
bitvec = "1"
ordered-float = "5"
clap = { version = "4", features = ["derive"] }
