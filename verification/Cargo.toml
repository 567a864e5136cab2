[package]
name = "efg_ahocorasick"
version = "0.1.0"
edition = "2021"
publish = false

[dependencies]
daachorse = "1"
