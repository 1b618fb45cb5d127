[package]
name = "patternsleuth"
version = "0.1.0"
edition = "2021"
publish = false

[dependencies]
anyhow = "*"
clap = { version = "*", features = ["derive"] }
colored = "*"
globset = "*"
indicatif = "*"
itertools = "*"
patricia_tree = "*"
prettytable-rs = "*"
regex = "*"
serde = { version = "*", features = ["derive"] }
serde_json = "*"
