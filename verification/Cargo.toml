[package]
name = "mesh"
version = "0.1.0"
edition = "2021"
publish = false

[dependencies]
bincode = "0.5"
docopt = "0.6"
rand = "0.3"
rustc-serialize = "0.3"
time = "0.1"
