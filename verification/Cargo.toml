[package]
name = "json_editor"
version = "0.1.0"
edition = "2021"
publish = false

[dependencies]
regex = "1"
serde_json = "1"
rayon = "1"
rfd = "*"
