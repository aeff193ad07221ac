[package]
name = "spec-diff"
version = "0.1.0"
edition = "2021"
publish = false

[dependencies]
tree-sitter = "*"
tree-sitter-ruby = "*"
tree-sitter-rust = "*"
tree-sitter-python = "*"
tree-sitter-javascript = "*"
tree-sitter-go = "*"
tree-sitter-elixir = "*"
tree-sitter-java = "*"
tree-sitter-php = "*"
serde = { version = "1", features = ["derive"] }
serde_json = "1"
toml = "*"
clap = { version = "4", features = ["derive"] }
anyhow = "1"
glob = "*"
rayon = "1"
crossterm = "*"
ratatui = "*"
notify = "*"
notify-debouncer-mini = "*"
git2 = { version = "*", default-features = false }
ignore = "*"
vcs-runner = "*"
