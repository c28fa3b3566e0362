[package]
name = "block_dedupe"
version = "0.1.0"
edition = "2021"
publish = false

[dependencies]
blake3 = { version = "1", default-features = false, features = ["pure"] }
nohash-hasher = "0.2"
num-format = "0.4"
structopt = "0.3"
