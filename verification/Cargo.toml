[package]
name = "dtscan"
version = "0.1.0"
edition = "2021"
publish = false

[dependencies]
delaunator = "1"
geo = "*"
rayon = "1"
