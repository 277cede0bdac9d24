[package]
name = "expansion_view"
version = "0.1.0"
edition = "2021"
publish = false

[dependencies]
html-escape = "0.2"
proc-macro2 = { version = "1", features = ["span-locations"] }
