[package]
name = "ast_to_mermaid"
version = "0.1.0"
edition = "2021"
publish = false

[dependencies]
ciborium = "=0.2.2"
clap = { version = "=4.6.7", features = ["derive"] }
serde = { version = "=1.0.229", features = ["derive"] }
serde_json = "=1.0.154"
sha1_smol = "=1.0.1"
sha2 = "=0.10.9"
tempfile = "=3.27.0"
thiserror = "=2.0.21"
time = { version = "=0.3.55", features = ["formatting"] }
tree-sitter = "=0.25.10"
tree-sitter-dart = "=0.2.0"
tree-sitter-python = "=0.25.0"
tree-sitter-rust = "=0.24.2"
