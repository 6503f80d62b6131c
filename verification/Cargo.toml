[package]
name = "poly_2d"
version = "0.1.0"
edition = "2021"
publish = false

[dependencies]
rayon = "1"
clap = { version = "4", features = ["derive"] }
ndarray = "0.15"
rand = "0.8"
format_num = "0.1"
