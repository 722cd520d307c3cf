[package]
name = "rx"
version = "0.1.0"
edition = "2021"
publish = false

[dependencies]
any_ascii = "*"
ansi_term = "0.12"
atty = "0.2"
chrono = "0.4"
clap = "2"
difference = "2"
path_abs = "0.5"
regex = "1"
walkdir = "2"
