[package]
name = "dirsize"
version = "0.1.0"
edition = "2021"
publish = false

[dependencies]
ahash = "0.8"
argh = "0.1"
bytesize = "1"
tabwriter = "1"
walkdir = "2"
