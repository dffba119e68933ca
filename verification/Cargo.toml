[package]
name = "json_parser"
version = "0.1.0"
edition = "2021"

[dependencies]
bencher = "0.1"
