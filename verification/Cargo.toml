[package]
name = "mycos"
version = "0.1.0"
edition = "2021"
publish = false

[dependencies]
bitvec = { version = "=1.1.1", features = ["serde"] }
js-sys = "0.3"
petgraph = "=0.6.5"
rand = "=0.8.8"
rand_chacha = { version = "=0.3.1", features = ["serde1"] }
serde = { version = "=1.0.229", features = ["derive"] }
serde_json = "=1.0.154"
wasm-bindgen = "0.2"
wasm-bindgen-futures = "0.4"
web-sys = { version = "0.3", features = ["HtmlCanvasElement"] }
wgpu = "0.19"
