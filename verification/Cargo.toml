[package]
name = "egypt"
version = "0.1.0"
edition = "2021"
publish = false

[dependencies]
generic-array = "0.12"
rand = "0.5"
permutohedron = "0.2"
itertools = "0.8"
failure = "0.1"
