[package]
name = "sudojo"
version = "0.1.0"
edition = "2021"
publish = false

[dependencies]
rand = "0.4"
regex = "1"
ansi_term = "0.12"
log = "0.4"
log4rs = "1"
