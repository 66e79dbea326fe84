[package]
name = "twee_parser"
version = "0.1.0"
edition = "2021"
publish = false

[dependencies]
serde_json = { version = "1", features = ["preserve_order"] }
xmltree = { version = "0.10", features = ["attribute-order"] }
anyhow = "1"
clap = { version = "4", features = ["derive"] }
notify = "6"
rand = "0.8"
toml = "0.8"
serde = { version = "1", features = ["derive"] }
glob = "0.3"
thiserror = "1"

[dev-dependencies]
regex = "1"
