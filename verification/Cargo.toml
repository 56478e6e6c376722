[package]
name = "lexicaforge"
version = "0.1.0"
edition = "2021"
publish = false

[dependencies]
aho-corasick = "*"
unicode-normalization = "*"
unicode-segmentation = "*"
serde = { version = "*", features = ["derive"] }
rayon = "*"
thiserror = "*"
