[package]
name = "deser-yaml"
version = "0.1.0"
edition = "2021"
publish = false

[dependencies]
data-encoding = "2"
simdutf8 = "0.1"
