[package]
name = "symbol_table"
version = "0.1.0"
edition = "2021"
publish = false

[dependencies]
byteorder = "1"
spmc = "0.3"
