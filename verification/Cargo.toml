[package]
name = "my_csv_parser"
version = "0.1.0"
edition = "2021"
publish = false

[dependencies]
anyhow = "1"
csv = "1"
serde = "1"
serde_derive = "1"
