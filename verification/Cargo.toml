[package]
name = "cache_locality_experiment"
version = "0.1.0"
edition = "2021"
publish = false

[dependencies]
gif = "*"
