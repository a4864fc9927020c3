[package]
name = "rat_racer"
version = "1.0.0"
edition = "2021"
publish = false

[dependencies]
crossterm = "0.28"
rand = "0.9"
ratatui = "0.29"
