[package]
name = "packetminder"
version = "0.1.1"
edition = "2021"
publish = false

[dependencies]
crossterm = "0.28"
ratatui = "0.29"
