[package]
name = "toymc"
version = "0.1.0"
edition = "2021"
publish = false

[dependencies]
arrow = "*"
clap = { version = "*", features = ["derive"] }
indicatif = "*"
nalgebra = "*"
rand = "*"
rand_distr = "*"
serde = { version = "*", features = ["derive"] }
toml = "*"
