[package]
name = "hayashi"
version = "0.1.0"
edition = "2021"
publish = false

[dependencies]
kamon = "*"
nvim-oxi = "*"
tane = "*"
