[package]
name = "keyed_list"
version = "0.1.0"
edition = "2021"
publish = false

[dependencies]
indexmap = "*"
rustc-hash = "*"
drain_filter_polyfill = "*"
serde_json = "*"
