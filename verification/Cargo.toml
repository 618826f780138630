[package]
name = "analyzer_core"
version = "0.1.0"
edition = "2021"
publish = false

[dependencies]
compactp_ast = "=0.1.0-beta.1"
compactp_diagnostics = "=0.1.0-beta.1"
compactp_parser = "=0.1.0-beta.1"
compactp_syntax = "=0.1.0-beta.1"
ignore = "0.4"
rowan = "0.16"
serde = { version = "1", features = ["derive"] }
serde_json = "1"
text-size = "1"

[dev-dependencies]
tempfile = "3"
