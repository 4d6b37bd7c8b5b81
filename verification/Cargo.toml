[package]
name = "searcher"
version = "0.1.0"
edition = "2021"
publish = false

[dependencies]
fst = "=0.4.7"
httparse = "=1.10.1"
serde_json = "1"
