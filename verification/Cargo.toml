[package]
name = "aoc2024"
version = "0.1.0"
edition = "2021"
publish = false

[dependencies]
clap = { version = "*", features = ["derive"] }
phf = { version = "*", features = ["macros"] }
simple-error = "*"
