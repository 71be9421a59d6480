[package]
name = "aster"
version = "0.1.0"
edition = "2021"
publish = false

[dependencies]
anyhow = "1"
bincode = "1.3"
cachedir = "*"
grep-matcher = "0.1"
grep-regex = "0.1"
grep-searcher = "0.1"
ignore = "0.4"
multimap = "*"
regex = "1"
serde = { version = "1", features = ["derive"] }
structopt = "0.3"
xml-rs = "0.8"
