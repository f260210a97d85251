[package]
name = "sourcemap_writer"
version = "0.1.0"
edition = "2021"
publish = false

[dependencies]
json-writer = "*"
serde_yaml = "*"
thiserror = "*"
