[package]
name = "vsdx_edit"
version = "0.1.0"
edition = "2021"
publish = false

[dependencies]
yrs = "=0.28.0"
serde = { version = "=1.0.229", features = ["derive"] }
serde_json = "=1.0.154"
thiserror = "=2.0.21"
