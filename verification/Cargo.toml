[package]
name = "koto_parser"
version = "0.1.0"
edition = "2021"
publish = false

[dependencies]
koto_lexer = "0.1"
