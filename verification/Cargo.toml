[package]
name = "crunchy_vdf"
version = "0.1.0"
edition = "2021"
publish = false

[dependencies]
nom = { version = "5", default-features = false, features = ["std"] }
rayon = "1"
jemallocator = "0.3"
