[package]
name = "mev_bootee"
version = "0.1.0"
edition = "2021"
publish = false
