[package]
name = "dict_cc_lookup"
version = "0.1.0"
edition = "2021"
publish = false

[dependencies]
anyhow = "1"
thiserror = "1"
zstd = "0.13"
