[package]
name = "solve_sokoban"
version = "0.1.0"
edition = "2021"
publish = false

[dependencies]
likely_stable = "*"
