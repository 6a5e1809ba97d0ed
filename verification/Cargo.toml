[package]
name = "source_span"
version = "0.1.0"
edition = "2021"
publish = false

[dependencies]
colored = "*"
interner = "*"
lazy_static = "*"
lsp-types = "*"
