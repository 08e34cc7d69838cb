[package]
name = "decision"
version = "0.1.0"
edition = "2021"
publish = false

[dependencies]
polars = { version = "=0.38.3", default-features = false, features = ["lazy", "csv", "dtype-categorical", "fmt"] }
hashbrown = { version = "=0.14.5", features = ["raw"] }
