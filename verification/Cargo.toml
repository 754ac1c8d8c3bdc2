[package]
name = "page_blob_cache"
version = "0.1.0"
edition = "2021"
publish = false

[dependencies]
async-trait = "=0.1.92"
tokio = { version = "=1.53.2", features = ["sync", "time"] }
