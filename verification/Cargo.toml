[package]
name = "mdutils"
version = "0.1.0"
edition = "2021"
publish = false

[dependencies]
anyhow = "1"
clap = { version = "4", features = ["derive"] }
latex2mathml = "*"
markdown = "*"
mdbook = { version = "0.4", default-features = false }
once_cell = "1"
pathdiff = "0.2"
prettydiff = { version = "*", default-features = false }
pulldown-cmark = "*"
regex = "1"
relative-path = "*"
semver = "1"
serde_json = "1"
toml = "0.5"
tree-sitter = "*"
tree-sitter-md = { version = "*", features = ["parser"] }
url = "2"
