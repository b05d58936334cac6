[package]
name = "sublime_fuzzy"
version = "0.7.0"
edition = "2021"
publish = false

[dependencies]
serde = "1"
serde_derive = "1"
