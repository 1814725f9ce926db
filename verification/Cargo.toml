[package]
name = "whisker-aonyx-rules"
version = "0.1.0"
edition = "2021"
publish = false

[dependencies]
tree-sitter = "=0.25.10"
tree-sitter-rust = "=0.24.2"
