[package]
name = "influence_maximization"
version = "0.1.0"
edition = "2021"
publish = false

[dependencies]
rand = "0.8"
dotenv = "0.15"
