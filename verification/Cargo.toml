[package]
name = "obsidian_export"
version = "0.1.0"
edition = "2021"
publish = false

[dependencies]
eyre = "0.6"
gumdrop = "0.8"
ignore = "0.4"
pulldown-cmark = { version = "0.9", default-features = false }
pulldown-cmark-to-cmark = "10"
serde_yaml = "0.9"
