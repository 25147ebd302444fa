[package]
name = "jde_health"
version = "0.1.0"
edition = "2021"
publish = false

[dependencies]
urlencoding = "2"
serde = { version = "1", features = ["derive"] }
serde_json = "1"
leptos = { version = "0.6", features = ["csr"] }
gloo-net = "0.5"
gloo-timers = "0.3"
futures = "0.3"
wasm-bindgen = "0.2"
js-sys = "0.3"
web-sys = { version = "0.3", features = ["console", "Event", "EventTarget", "Window", "History"] }
serde-wasm-bindgen = "0.6"
