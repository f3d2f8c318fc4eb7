[package]
name = "pacquet_core"
version = "0.1.0"
edition = "2021"
publish = false

[dependencies]
node-semver = "2"
derive_more = { version = "1", features = ["display", "error"] }
futures-util = "0.3"
miette = "*"
pipe-trait = "*"
reqwest = { version = "0.12", default-features = false, features = ["json", "rustls-tls"] }
serde = { version = "1", features = ["derive"] }
tokio = { version = "1", features = ["rt", "rt-multi-thread"] }
