[package]
name = "devenv_lsp"
version = "0.1.0"
edition = "2021"
publish = false

[dependencies]
dashmap = "=5.5.3"
regex = "=1.13.1"
serde_json = { version = "=1.0.154", features = ["preserve_order"] }
tower-lsp = "=0.20.0"
tracing = "=0.1.44"
tree-sitter = "=0.23.2"
tree-sitter-nix = "=0.0.2"
