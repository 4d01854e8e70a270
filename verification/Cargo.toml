[package]
name = "r-approx"
version = "0.1.0"
edition = "2021"
publish = false

[dependencies]
chrono = "0.4"
clap = "3.2"
opener = "0.5"
plotters = "0.3"
regex = "1"
