[package]
name = "nizm"
version = "0.1.0"
edition = "2021"
publish = false

[dependencies]
anstyle = "1"
anyhow = "1"
clap = { version = "4", features = ["derive"] }
ctrlc = "3"
dialoguer = "0.11"
glob = "0.3"
indexmap = "2"
serde = "1"
serde_json = { version = "1", features = ["preserve_order"] }
toml_edit = "0.22"
