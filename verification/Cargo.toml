[package]
name = "pdf_ops"
version = "0.1.0"
edition = "2021"
publish = false

[dependencies]
anyhow = "1"
globset = "0.4"
walkdir = "2"
lopdf = "*"
indicatif = "*"
ratatui = "*"
crossterm = "*"
