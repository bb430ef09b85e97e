[package]
name = "keysheet"
version = "0.1.0"
edition = "2021"
publish = false

[dependencies]
unicode-width = "*"
ratatui = "*"
zellij-tile = "*"
