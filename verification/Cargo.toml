[package]
name = "gol"
version = "0.1.0"
edition = "2021"
publish = false

[dependencies]
wasm-bindgen = "=0.2.129"
web-sys = { version = "=0.3.106", features = ["CanvasRenderingContext2d", "console", "Window"] }
console_error_panic_hook = "*"
lazy_static = "=1.5.1"
