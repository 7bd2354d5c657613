[package]
name = "codeboss"
version = "0.1.0"
edition = "2021"
publish = false

[dependencies]
rayon = "1"
sha1 = "0.10"
