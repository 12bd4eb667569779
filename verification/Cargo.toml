[package]
name = "depsy_lsp"
version = "0.1.0"
edition = "2021"
publish = false

[dependencies]
hashbrown = "=0.17.1"
serde_json = "1"
toml = "*"
taplo = "*"
json-spanned-value = "*"
quick-xml = "*"
