[package]
name = "ahc014"
version = "0.1.0"
edition = "2021"
publish = false

[dependencies]
proconio = "0.3"
rand = "0.7"
rand_chacha = "0.2"
