[package]
name = "retree"
version = "0.7.1"
edition = "2021"
publish = false

[dependencies]
bstr = "1"
ignore = "0.4"
rayon = "1"
