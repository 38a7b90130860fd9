[package]
name = "spam_filter"
version = "0.1.0"
edition = "2021"
publish = false

[dependencies]
fst = "0.4"
unobtanium-segmenter = { version = "=0.4.0", default-features = false }
csv = "1"
anyhow = "1"
bytes = "1"
http = "1"
serde = { version = "1", features = ["derive"] }
serde_json = "1"
