[package]
name = "backpack_wiki"
version = "0.1.0"
edition = "2021"
publish = false

[dependencies]
parse_wiki_text = "*"
serde = { version = "1", features = ["derive"] }
serde_json = "1"
json5 = "*"
clap = { version = "*", features = ["derive"] }
tokio = { version = "1", features = ["rt", "time", "net", "macros"] }
mediawiki = "*"
indexmap = "*"
version-compare = "*"
anyhow = "1"
