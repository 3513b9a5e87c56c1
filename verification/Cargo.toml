[package]
name = "shortest_path"
version = "0.1.0"
edition = "2021"
publish = false

[dependencies]
clap = "2"
once_cell = "1"
snafu = "0.6"
