[package]
name = "jsshaker"
version = "0.1.0"
edition = "2021"
publish = false

[dependencies]
oxc_syntax = { version = "=0.143.0", features = ["to_js_string"] }
oxc_ecmascript = "=0.143.0"
