[package]
name = "normalized_string"
version = "0.1.0"
edition = "2021"
publish = false

[dependencies]
unicode-normalization-alignments = "*"

[dev-dependencies]
unicode_categories = "*"
