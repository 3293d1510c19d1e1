[package]
name = "nicos_compact_cachedb"
version = "0.1.0"
edition = "2021"
publish = false

[dependencies]
anyhow = "1"
byteorder = "1"
fs-err = "*"
