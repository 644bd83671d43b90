[package]
name = "c2pa_stamping"
version = "0.1.0"
edition = "2021"
publish = false

[dependencies]
anyhow = "=1.0.104"
base64 = "=0.22.1"
bytes = "=1.12.1"
c2pa = { version = "=0.78.8", default-features = false, features = ["file_io", "rust_native_crypto"] }
chrono = "=0.4.45"
futures-util = "=0.3.34"
http-body = "=1.1.0"
http-body-util = "=0.1.5"
serde_json = { version = "=1.0.154", features = ["preserve_order"] }
tempfile = "=3.27.0"
tokio = { version = "=1.54.1", features = ["rt"] }
tracing = "=0.1.44"
