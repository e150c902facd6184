[package]
name = "ark"
version = "0.1.0"
edition = "2021"
publish = false

[dependencies]
glob = "=0.3.4"
petgraph = "=0.6.5"
quick-xml = "=0.37.5"
tree-sitter = "=0.25.10"
tree-sitter-c-sharp = "=0.23.5"
ignore = "=0.4.34"
miette = { version = "=7.6.0", features = ["fancy"] }
serde = { version = "=1.0.229", features = ["derive"] }
serde_json = "=1.0.154"
toml = "=0.8.23"
clap = { version = "=4.6.7", features = ["derive"] }
dialoguer = "=0.11.0"
rayon = "=1.12.0"
tokio = { version = "=1.54.1", features = ["macros", "rt-multi-thread"] }
tracing = "=0.1.44"
tracing-subscriber = { version = "=0.3.23", features = ["env-filter"] }
thiserror = "=1.0.69"

[dev-dependencies]
tempfile = "=3.27.0"
