[package]
name = "tachyon"
version = "0.1.0"
edition = "2021"
publish = false

[dependencies]
varuint = "*"
rustc-hash = "*"
socket2 = "0.5"
rand = "0.8"
crossbeam = "0.8"
rayon = "1"
synchronoise = "1"
