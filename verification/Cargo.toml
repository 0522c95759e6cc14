[package]
name = "cadence"
version = "0.1.0"
edition = "2021"
publish = false

[dependencies]
chrono = "*"
chrono-tz = "*"
clap = "*"
dirs = "*"
rand = "*"
