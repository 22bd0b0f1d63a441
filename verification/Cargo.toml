[package]
name = "apriori"
version = "0.1.0"
edition = "2021"
publish = false

[dependencies]
itertools = "0.13"
rayon = "1"
