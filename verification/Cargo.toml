[package]
name = "waffle_iron"
version = "0.1.0"
edition = "2021"
publish = false

[dependencies]
im-rc = "15"
getrandom = "0.2"
wasm-bindgen = "0.2"
console_error_panic_hook = "0.1"
