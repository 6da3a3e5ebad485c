[package]
name = "dot-viewer"
version = "0.1.0"
edition = "2021"
publish = false

[dependencies]
better-panic = "0.3"
chrono = "0.4"
clap = "4.0"
crossterm = "0.25"
dot_graph = "*"
dot-parser = "*"
fuzzy-matcher = "0.3"
html_parser = "0.6"
log = "0.4"
rayon = "1"
regex = "1"
repl-rs = "0.2"
rustyline = "10"
rustyline-derive = "0.7"
simplelog = "0.12"
thiserror = "1"
trie-rs = "0.1"
tui = "0.19"
tui-tree-widget = "0.11"
