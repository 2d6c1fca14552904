[package]
name = "dtree"
version = "0.1.0"
edition = "2021"
publish = false

[dependencies]
polars = { version = "=0.38.3", features = ["lazy", "csv", "dtype-categorical"] }
hashbrown = { version = "0.14", features = ["raw"] }
