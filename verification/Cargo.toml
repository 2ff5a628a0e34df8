[package]
name = "terrier"
version = "0.1.0"
edition = "2021"
publish = false

[dependencies]
anyhow = "=1.0.104"
async-lsp = { version = "=0.2.4", features = ["tokio"] }
async-process = "=2.5.0"
clap = { version = "=4.6.7", features = ["derive"] }
colored = "=3.1.1"
compact_str = "=0.9.1"
console = "=0.15.11"
dialoguer = { version = "=0.11.0", features = ["fuzzy-select"] }
fern = { version = "=0.7.1", features = ["colored"] }
log = "=0.4.35"
notify-rust = "=4.18.2"
oneshot = "=0.1.13"
serde_json = "=1.0.154"
spinoff = { version = "=0.8.0", features = ["dots"] }
tabled = { version = "=0.20.0", features = ["ansi"] }
tokio = { version = "=1.54.1", features = ["rt", "macros"] }
tower = "=0.5.3"
