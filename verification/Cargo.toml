[package]
name = "evosim"
version = "0.1.0"
edition = "2021"
publish = false

[dependencies]
rand_xoshiro = { version = "0.6", features = ["serde1"] }
twox-hash = "1.6"
serde = { version = "1", features = ["derive"] }
serde_json = "1"
getrandom = { version = "0.2", features = ["js"] }
rayon = "1"
wide = "0.7"
wasm-bindgen = "0.2"
web-sys = { version = "0.3", features = ["console", "Window", "Performance"] }
wasm-bindgen-rayon = "1"
