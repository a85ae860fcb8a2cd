[package]
name = "firelog"
version = "0.1.0"
edition = "2021"
publish = false

[dependencies]
uuid = { version = "1", features = ["v4", "serde"] }
serde = { version = "1", features = ["derive"] }
serde_json = "1"
wasm-bindgen = "0.2"
wasm-bindgen-futures = "0.4"
js-sys = "0.3"
web-sys = { version = "0.3", features = ["Window", "Storage", "console"] }
futures = "0.3"
serde-wasm-bindgen = "0.6"
gloo-utils = { version = "0.2", features = ["serde"] }
tracing = "0.1"
dioxus = { version = "0.5", features = ["web", "router"] }
dioxus-logger = "0.5"
