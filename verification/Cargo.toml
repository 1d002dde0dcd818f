[package]
name = "evm_kernel"
version = "0.1.0"
edition = "2021"
publish = false

[dependencies]
alloy = { version = "=1.8.3", default-features = false, features = ["std", "serde"] }
imbl = "=7.0.2"
serde = { version = "=1.0.229", features = ["derive"] }
