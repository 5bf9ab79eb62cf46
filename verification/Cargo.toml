[package]
name = "mkp"
version = "0.1.2"
edition = "2021"
publish = false

[dependencies]
clap = "2"
colored = "1"
rand = "0.5"
rayon = "1"
