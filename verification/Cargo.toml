[package]
name = "bnb_fold"
version = "0.1.0"
edition = "2021"
publish = false

[dependencies]
ahash = "*"
itertools = "*"
nohash-hasher = "*"
phf = "*"
rayon = "*"
tinyset = "*"
