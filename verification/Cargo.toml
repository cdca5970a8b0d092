[package]
name = "mini_bitcask"
version = "0.1.0"
edition = "2021"
publish = false

[dependencies]
fs4 = "=0.12.0"
log = "=0.4.34"
