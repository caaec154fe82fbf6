[package]
name = "multiversion_features"
version = "0.1.0"
edition = "2021"
publish = false

[dependencies]
pubgrub = "0.2"
