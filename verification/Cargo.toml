[package]
name = "bnb_simplex"
version = "0.1.0"
edition = "2021"
publish = false

[dependencies]
matrix = "*"
