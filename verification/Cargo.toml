[package]
name = "regex_strings"
version = "0.1.0"
edition = "2021"
publish = false

[dependencies]
regex = "1"
regex-syntax = "0.8"
wasm-bindgen = "0.2"
js-sys = "0.3"
