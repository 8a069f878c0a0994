[package]
name = "markov_memory"
version = "0.1.0"
edition = "2021"
publish = false

[dependencies]
rand = "*"
zip = { version = "*", default-features = false, features = ["deflate"] }
