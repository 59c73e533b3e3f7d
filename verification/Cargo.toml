[package]
name = "fractal_pie"
version = "0.1.0"
edition = "2021"

[dependencies]
png = "0.17"
rayon = "1"
