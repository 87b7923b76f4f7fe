[package]
name = "wasmdbg"
version = "0.1.0"
edition = "2021"
publish = false

[dependencies]
anyhow = "=1.0.104"
gimli = "=0.34.0"
object = { version = "=0.40.0", features = ["wasm"] }
walrus = "=0.27.3"
id-arena = "=2.3.0"
wasm-encoder = { version = "=0.263.0", features = ["wasmparser"] }
wasmparser = "=0.263.0"
serde = { version = "=1.0.229", features = ["derive"] }
tsify = "=0.5.8"
wasm-bindgen = "=0.2.130"
wasm-bindgen-futures = "=0.4.80"
js-sys = "=0.3.107"
web-sys = { version = "=0.3.107", features = ["console", "DedicatedWorkerGlobalScope", "MessageEvent", "ReadableStream", "ReadableStreamDefaultReader", "WritableStream", "WritableStreamDefaultWriter", "WorkerGlobalScope"] }
serde-wasm-bindgen = "=0.6.5"
futures = "=0.3.34"
console_error_panic_hook = "=0.1.7"
