[package]
name = "argline"
version = "0.1.0"
edition = "2021"
publish = false

[dependencies]
async-recursion = "1"
serenity = { version = "0.12", default-features = false, features = ["client", "gateway", "model", "rustls_backend"] }
tokio = { version = "1", features = ["macros", "rt-multi-thread"] }
