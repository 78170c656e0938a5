[package]
name = "sv_language_index"
version = "0.1.0"
edition = "2021"
publish = false

[dependencies]
bimap = "*"
generational-arena = "*"
sv-parser = "*"
