[package]
name = "pmv"
version = "0.1.0"
edition = "2021"
publish = false

[dependencies]
rand = "*"
clap = "*"
ansi_term = "*"
atty = "*"
