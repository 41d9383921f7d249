[package]
name = "own2048"
version = "0.1.0"
edition = "2021"
publish = false

[dependencies]
rand = "0.8"
itertools = "*"
thirtyfour_sync = "*"
