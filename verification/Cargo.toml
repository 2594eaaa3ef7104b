[package]
name = "editor_reconcile"
version = "0.1.0"
edition = "2021"
publish = false

[dependencies]
serde = { version = "*", features = ["derive"] }
log = "*"
wasm-bindgen = "*"
js-sys = "*"
gloo-utils = { version = "*", features = ["serde"] }
console_error_panic_hook = "*"
dioxus = "*"
dioxus-logger = "*"
