[package]
name = "kindle-notes-core"
version = "0.1.0"
edition = "2021"
publish = false

[dependencies]
sanitize-filename = "=0.6.0"
rayon = "=1.12.0"
dirs = "=7.0.0"
druid = "=0.8.3"
