[package]
name = "rankcoder"
version = "0.1.0"
edition = "2021"
publish = false

[dependencies]
pgn-reader = "=0.28.0"
shakmaty = "=0.29.4"
