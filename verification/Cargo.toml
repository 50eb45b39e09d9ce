[package]
name = "unicode_normalization"
version = "0.1.0"
edition = "2021"
publish = false

[dependencies]
tinyvec = { version = "1", features = ["alloc"] }
