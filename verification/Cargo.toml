[package]
name = "anvil_region"
version = "0.1.0"
edition = "2021"
publish = false

[dependencies]
bitvec = "*"
named-binary-tag = "*"
