[package]
name = "sokr_plugins"
version = "0.2.0"
edition = "2021"
publish = false

[dependencies]
sokr = "0.3"
