[package]
name = "ruplacer"
version = "0.1.0"
edition = "2021"
publish = false

[dependencies]
regex = "1"
Inflector = "0.11"
patricia_tree = "*"
os_str_bytes = "6"
ignore = "0.4"
anyhow = "1"
colored = "2"
clap = { version = "4", features = ["derive"] }
