[package]
name = "aoc2023"
version = "0.1.0"
edition = "2021"
publish = false

[dependencies]
petgraph = "0.6"
ndarray = "0.15"
num = "0.4"
nalgebra = "0.32"
