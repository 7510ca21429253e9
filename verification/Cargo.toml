[package]
name = "nazrin"
version = "0.1.0"
edition = "2021"
publish = false

[dependencies]
ahash = "=0.8.12"
jieba-rs = { version = "0.7", features = ["tfidf"] }
ordered-float = "*"
pyo3 = { version = "=0.22.6", features = ["extension-module"] }
