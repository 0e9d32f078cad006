[package]
name = "archive_stats"
version = "0.1.0"
edition = "2021"
publish = false

[dependencies]
bzip2 = "*"
tar = "*"
itertools = "*"
clap = { version = "4", features = ["cargo"] }
color-eyre = "*"
comfy-table = "*"
indicatif = "*"
num-format = "*"
phf = { version = "0.11", features = ["macros"] }
