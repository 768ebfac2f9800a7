[package]
name = "doc_indexer"
version = "0.1.0"
edition = "2021"
publish = false

[dependencies]
serde = { version = "1", features = ["derive"] }
strsim = "0.11"
pinyin = "0.10"
