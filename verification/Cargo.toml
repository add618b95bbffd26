[package]
name = "cppn"
version = "0.1.0"
edition = "2021"
publish = false

[dependencies]
acyclic-network = "*"
fixedbitset = "0.1"
rand = "0.3"
