[package]
name = "matching_polynomial"
version = "0.1.0"
edition = "2021"
publish = false

[dependencies]
polynomial = "*"
itertools = "*"
