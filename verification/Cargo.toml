[package]
name = "tidytree"
version = "0.1.0"
edition = "2021"
publish = false

[dependencies]
clap = { version = "4", features = ["cargo"] }
colored = "*"
dirs-next = "*"
fancy-regex = "*"
indicatif = "0.17"
itertools = "*"
md-5 = "*"
nary_tree = "*"
quick-error = "*"
rayon = "*"
serde = { version = "1", features = ["derive"] }
serde_yaml = "0.9"
slab_tree = "*"
walkdir = "2"
