[package]
name = "interstellar_db"
version = "0.1.0"
edition = "2021"
publish = false

[dependencies]
sha2 = "0.10"
prost = "0.14"
prost-types = "0.14"
tokio = { version = "1", features = ["macros", "rt-multi-thread", "sync", "time", "net"] }
tokio-stream = { version = "0.1", features = ["net"] }
tonic = "0.14"
js-sys = "0.3"
wasm-bindgen = "0.2"
console_error_panic_hook = "0.1"
