[package]
name = "nobiscuit"
version = "0.2.1"
edition = "2021"
publish = false

[dependencies]
crossterm = "0.28"
rand = "0.8"
termray = "0.3"
