[package]
name = "top_files"
version = "0.1.0"
edition = "2021"
publish = false

[dependencies]
file-size = "*"
clap = "2"
walkdir = "2"
