[package]
name = "treeish"
version = "0.1.0"
edition = "2021"
publish = false

[dependencies]
anyhow = "=1.0.104"
bt_bencode = "=0.8.2"
libc = "=0.2.191"
rayon = "=1.12.0"
serde = { version = "=1.0.229", features = ["derive"] }
serde_derive = "=1.0.229"
toml = "=1.1.8"
tree-sitter = "=0.27.1"
tree-sitter-highlight = "=0.27.1"
tree-sitter-md = { version = "=0.5.4", features = ["parser"] }
tree-sitter-zsh = "=0.63.4"
zsh-module = "=0.3.0"
