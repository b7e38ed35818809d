[package]
name = "moove"
version = "0.1.0"
edition = "2021"
publish = false

[dependencies]
anyhow = "1"
clap = { version = "4", features = ["derive"] }
colored = "2"
edit = "0.1"
fs_extra = "1"
glob = "0.3"
natord = "1"
normpath = "1"
regex = "1"
