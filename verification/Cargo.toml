[package]
name = "rust_doc_db"
version = "0.1.0"
edition = "2021"
publish = false

[dependencies]
sqlite = "*"
ulid = "*"
rand = "*"
glob = "*"
clap = { version = "*", features = ["derive"] }
color-eyre = "*"
log = "*"
simple_logger = "*"
