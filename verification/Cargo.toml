[package]
name = "qsharp_outline"
version = "0.1.0"
edition = "2021"
publish = false

[dependencies]
serde_json = "1"
wit-bindgen = "0.63"
