[package]
name = "eza_details"
version = "0.1.0"
edition = "2021"
publish = false

[dependencies]
nu-ansi-term = "0.50"
unicode-width = "0.2"
rayon = "1"
