[package]
name = "eml_sr_fable"
version = "0.2.0"
edition = "2021"
publish = false

[dependencies]
rayon = "1"
dashmap = "*"
