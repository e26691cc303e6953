[package]
name = "typst-epub"
version = "0.1.0"
edition = "2021"
publish = false

[dependencies]
base64 = "*"
ecow = "*"
time = "*"
typst-html = "*"
typst-library = "*"
typst-macros = "*"
typst-syntax = "*"
typst-utils = "*"
xmlwriter = "*"
zip = { version = "*", default-features = false, features = ["deflate"] }
