[package]
name = "matchlib"
version = "0.1.0"
edition = "2021"
publish = false

[dependencies]
uuid = { version = "=1.29.0", features = ["v4"] }
matchbox_socket = "=0.9.0"
matchbox_signaling = "=0.9.0"
matchbox_protocol = { version = "=0.9.0", features = ["json"] }
axum = { version = "=0.6.20", features = ["ws"] }
tokio = { version = "=1.54.1", features = ["macros", "rt-multi-thread"] }
tower-http = { version = "=0.4.4", features = ["cors", "trace"] }
tracing = "=0.1.44"
tracing-subscriber = { version = "=0.3.23", features = ["env-filter"] }
futures = "=0.3.34"
futures-timer = "=3.0.4"
log = "=0.4.34"
serde_json = "=1.0.154"
wasm-bindgen = "=0.2.129"
wasm-bindgen-futures = "=0.4.79"
serde-wasm-bindgen = "=0.6.5"
console_log = "=1.1.0"
console_error_panic_hook = "=0.1.7"
async-trait = "=0.1.92"

[dev-dependencies]
bincode = "=1.3.3"
