[package]
name = "marginal"
version = "0.1.0"
edition = "2021"
publish = false

[dependencies]
comrak = { version = "=0.54.0", default-features = false }
crossterm = "=0.29.0"
ratatui = "=0.30.2"
serde = { version = "=1.0.229", features = ["derive"] }
serde_json = "=1.0.154"
# ratatui adds a cell per halfwidth sound mark to a width that counts none for it.
unicode-width = "=0.2.2"
