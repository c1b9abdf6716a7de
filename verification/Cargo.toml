[package]
name = "rolling_median"
version = "0.1.0"
edition = "2021"
publish = false

[dev-dependencies]
itertools = "0.14"
ordered-float = "5"
rand_pcg = "0.9"
