[package]
name = "openscad_lsp"
version = "0.1.0"
edition = "2021"
publish = false

[dependencies]
clap = { version = "4", features = ["derive"] }
directories = "*"
ignore = "0.4"
linked-hash-map = "0.5"
lsp-server = "0.7"
lsp-types = "0.95"
serde = { version = "1", features = ["derive"] }
serde_json = "1"
shellexpand = "3"
tree-sitter = "*"
tree-sitter-openscad-ng = "*"
tree-sitter-traversal2 = "*"

[dev-dependencies]
tempfile = "3"
