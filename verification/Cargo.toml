[package]
name = "turbopack_trace_server"
version = "0.1.0"
edition = "2021"
publish = false

[dependencies]
postcard = { version = "1", default-features = false, features = ["use-std"] }
regex = "1"

[dev-dependencies]
serde = "1"
