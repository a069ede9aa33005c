[package]
name = "llm-cleanup"
version = "0.1.0"
edition = "2021"
publish = false

[dependencies]
pulldown-cmark = { version = "=0.13.6", default-features = false }
quick-xml = "=0.42.0"
zip = { version = "=9.2.2", default-features = false, features = ["deflate"] }
docx-rs = "=0.4.22"
unicode-segmentation = "=1.13.3"
aho-corasick = "=1.1.5"
thiserror = "=2.0.21"
anyhow = "=1.0.104"
clap = { version = "=4.6.7", features = ["derive"] }
similar = "=2.7.0"
serde = { version = "1", features = ["derive"] }
serde_norway = "*"
