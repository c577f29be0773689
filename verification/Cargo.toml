[package]
name = "regex_dfa"
version = "0.1.0"
edition = "2021"
publish = false

[dependencies]
itertools = "0.10"
regex-syntax = "0.4"
utf8-ranges = "1"
