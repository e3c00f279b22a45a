[package]
name = "tree_calculus"
version = "0.1.0"
edition = "2021"
publish = false

[dependencies]
ahash = "0.8"
hex = "0.4"
