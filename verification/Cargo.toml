[package]
name = "collide2d"
version = "0.1.0"
edition = "2021"
publish = false

[dependencies]
gloo-render = "0.1"
log = "0.4"
rand = "0.7"
wasm-bindgen = "0.2"
wasm-logger = "0.2"
web-sys = { version = "0.3", features = ["CanvasRenderingContext2d", "HtmlCanvasElement", "Window"] }
yew = "0.19"
