[package]
name = "trie_prefetch"
version = "0.1.0"
edition = "2021"
publish = false

[dependencies]
tokio = { version = "1", features = ["sync", "rt", "macros", "time"] }
