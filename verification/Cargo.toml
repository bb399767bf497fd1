[package]
name = "project_s"
version = "0.1.0"
edition = "2021"
publish = false

[dependencies]
tree-sitter = "=0.25.10"
tree-sitter-highlight = "=0.25.10"
tower-lsp-server = "=0.23.0"
thiserror = "=2.0.21"
tokio = { version = "=1.54.1", features = ["rt-multi-thread", "macros", "io-std"] }
ariadne = "=0.6.0"
indexmap = "=2.14.2"
serde_json = "=1.0.154"
