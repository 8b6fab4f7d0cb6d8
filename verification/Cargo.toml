[package]
name = "rust_hero"
version = "0.1.0"
edition = "2021"
publish = false

[dependencies]
tree-sitter = "=0.22.6"
tree-sitter-rust = "=0.21.2"
clap = { version = "=3.2.25", features = ["cargo"] }
anyhow = "=1.0.104"
ignore = "=0.4.34"
crossbeam = "=0.8.5"
rayon = "=1.12.0"
serde_json = "=1.0.154"
bump_alloc = "=0.1.0"
rust-bert = "=0.20.0"
rust_tokenizers = "=7.0.2"
tch = "=0.10.3"
