[package]
name = "detamu"
version = "0.1.0"
edition = "2021"
publish = false

[dependencies]
sha2 = "=0.10.9"
quick-xml = "*"
url = "2"
tree-sitter = "=0.25.10"
tree-sitter-rust = "=0.24.2"
serde = { version = "1", features = ["derive"] }
serde_json = "1"
tokio = { version = "1", features = ["process", "fs", "io-util", "time", "rt", "rt-multi-thread", "macros", "sync"] }
async-trait = "0.1"
thiserror = "*"
