[package]
name = "disk_lexicon"
version = "0.1.0"
edition = "2021"
publish = false

[dependencies]
levenshtein = "*"
sqlite = "*"
tokio = { version = "1", features = ["sync"] }
