[package]
name = "bote"
version = "0.4.0"
edition = "2021"
publish = false

[dependencies]
async-trait = "0.1"
bytes = "1"
dhat = "0.3"
napi = { version = "3", features = ["napi8", "tokio_rt", "serde-json"] }
napi-derive = "3"
serde = { version = "1", features = ["derive"] }
serde_json = "1"
thiserror = "2"
