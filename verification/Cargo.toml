[package]
name = "khaleesi"
version = "0.1.0"
edition = "2021"
publish = false

[dependencies]
atty = "0.2"
chrono = "0.4"
structopt = "0.3"
walkdir = "2"
