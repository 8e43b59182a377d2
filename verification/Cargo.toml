[package]
name = "casino"
version = "0.1.0"
edition = "2021"
publish = false

[dependencies]
secret-cosmwasm-std = { version = "=1.1.11", features = ["random"] }
secret-toolkit-storage = "=0.10.3"
serde = { version = "=1.0.229", features = ["derive"] }
schemars = "=0.8.22"
