[package]
name = "jit"
version = "0.1.0"
edition = "2021"
publish = false

[dependencies]
sha1 = "0.10"
hex = "0.4"
flate2 = "1"
rand = "0.8"
chrono = "0.4"
indexmap = "2"
structopt = "0.3"
