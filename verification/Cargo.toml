[package]
name = "typ"
version = "0.1.0"
edition = "2021"
publish = false

[dependencies]
unicode-width = "*"
rusqlite = { version = "*", features = ["bundled"] }
rand_chacha = "*"
rand_core = "*"
