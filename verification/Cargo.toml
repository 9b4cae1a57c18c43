[package]
name = "rhh"
version = "0.1.0"
edition = "2021"
publish = false

[dependencies]
twox-hash = { version = "2", default-features = false, features = ["xxhash64"] }
