[package]
name = "mekle"
version = "0.2.0"
edition = "2021"
publish = false

[dependencies]
ignore = "*"
serde = { version = "1", features = ["derive"] }
serde_json = "1"
toml = "*"
clap = { version = "4", features = ["derive"] }
clap_complete = "4"
tempfile = "3"
thiserror = "*"
tracing = "0.1"
tracing-subscriber = "0.3"
color-eyre = "0.6"
which = "*"

[dev-dependencies]
tempfile = "3"
