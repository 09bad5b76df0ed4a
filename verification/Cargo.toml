[package]
name = "polka"
version = "0.1.0"
edition = "2021"
publish = false

[dependencies]
html5ever = "*"
indexmap = "2"
markdown-it = "0.6"
quick-xml = "*"

[dev-dependencies]
jotdown = "*"
