[package]
name = "flights"
version = "0.1.0"
edition = "2021"
publish = false

[dependencies]
time = { version = "0.3", features = ["macros", "parsing", "formatting", "serde-human-readable"] }
serde = { version = "1", features = ["derive"] }
serde_json = "1"
futures = "0.3"
log = "0.4"
azure_core = { version = "0.21", default-features = false }
azure_storage = { version = "0.21", default-features = false }
azure_storage_blobs = { version = "0.21", default-features = false }
