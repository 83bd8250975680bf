[package]
name = "gdscript_formatter"
version = "0.1.0"
edition = "2021"
publish = false

[dependencies]
regex = "*"
topiary-core = "*"
tree-sitter = "*"
tree-sitter-gdscript = "*"
clap = { version = "*", features = ["derive"] }
rayon = "*"
