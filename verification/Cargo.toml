[package]
name = "pdf-form-core"
version = "0.1.0"
edition = "2021"
publish = false

[dependencies]
lopdf = { version = "=0.46.0", default-features = false, features = ["chrono-clock"] }
serde = { version = "=1.0.229", features = ["derive"] }
thiserror = "=2.0.21"
tauri = { version = "=2.12.5", default-features = false }
