[package]
name = "md_formatter"
version = "0.1.0"
edition = "2021"
publish = false

[dependencies]
pulldown-cmark = { version = "0.9", default-features = false }
clap = { version = "4", features = ["derive"] }
glob = "0.3"
