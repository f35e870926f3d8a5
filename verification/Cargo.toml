[package]
name = "toast"
version = "0.1.0"
edition = "2021"
publish = false

[dependencies]
sha2 = "0.10"
hex = "0.4"
serde = { version = "1", features = ["derive"] }
serde_yaml = "0.9"
atty = "0.2"
colored = "2"
clap = "2"
env_logger = "0.9"
log = "0.4"
ctrlc = { version = "3", features = ["termination"] }
dirs = "5"
tempfile = "3"
walkdir = "2"
tar = "0.4"
scopeguard = "1"
lazy_static = "1"
crossbeam = "0.8"
indicatif = "0.15"
textwrap = "0.11"
ignore = "0.4"
