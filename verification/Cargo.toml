[package]
name = "gospel_render"
version = "0.1.0"
edition = "2021"
publish = false

[dependencies]
pulldown-cmark = { version = "*", default-features = false }

[dev-dependencies]
regex-lite = "*"
