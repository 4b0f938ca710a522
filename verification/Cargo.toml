[package]
name = "wasm_runtime_composer"
version = "0.1.0"
edition = "2021"
publish = false

[dependencies]
wasmtime = { version = "40", default-features = false, features = ["runtime", "std", "async", "cranelift", "component-model", "component-model-async", "wat"] }
tokio = { version = "1", features = ["sync", "rt"] }
futures = "0.3"
thiserror = "2"
