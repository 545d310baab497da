[package]
name = "register_excel_parser"
version = "0.1.0"
edition = "2021"
publish = false

[dependencies]
calamine = { version = "*", features = ["dates"] }
wasm-bindgen = "*"
serde-wasm-bindgen = "*"
serde = { version = "*", features = ["derive"] }
