[package]
name = "ref_safety"
version = "0.1.0"
edition = "2021"
publish = false

[dependencies]
hex = "0.4"
anyhow = "1"
structopt = "0.3"
