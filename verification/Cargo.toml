[package]
name = "sapvc_lsp"
version = "0.1.0"
edition = "2021"
publish = false

[dependencies]
regex = "1"
serde = { version = "1", features = ["derive"] }
serde_json = "1"
tokio = { version = "1", features = ["macros", "rt-multi-thread", "io-std"] }
tower-lsp = "0.20"
tree-sitter = "0.24"

[dev-dependencies]
tree-sitter-json = "0.24"
