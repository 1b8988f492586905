[package]
name = "tinysearch"
version = "0.1.0"
edition = "2021"
publish = false

[dependencies]
xorf = "*"
rand = "*"
serde = { version = "*", features = ["derive"] }
serde_json = "*"
toml = "*"
pulldown-cmark = "*"
argh = "*"
