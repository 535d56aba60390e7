[package]
name = "merkle_vector"
version = "0.1.0"
edition = "2021"
publish = false

[dependencies]
sha2 = "=0.11.1"
primitive-types = { version = "=0.14.0", default-features = false, features = ["std"] }
generic-array = "=1.4.5"
typenum = "=1.20.1"
