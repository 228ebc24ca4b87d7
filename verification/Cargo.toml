[package]
name = "cadenza"
version = "0.1.0"
edition = "2021"
publish = false

[dependencies]
ringbuf = "=0.4.8"
serde = { version = "1", features = ["derive"] }
serde_json = "=1.0.154"
tokio = { version = "1", features = ["full"] }
axum = { version = "0.7", features = ["ws"] }
futures-util = "0.3"
cpal = "0.15"
crossbeam-channel = "0.5"
libloading = "0.8"
tracing = "0.1"
tracing-subscriber = { version = "0.3", features = ["env-filter"] }
thiserror = "1"
wasm-bindgen = "0.2"
console_error_panic_hook = "0.1"
vst3 = "=0.3.0"
clack-host = "=0.2.0"
clack-extensions = { version = "=0.2.0", features = ["clack-host", "params"] }
