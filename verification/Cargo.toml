[package]
name = "compose_fetch"
version = "0.1.0"
edition = "2021"
publish = false

[dependencies]
strsim = "*"
serde = { version = "*", features = ["derive"] }
serde_json = "*"
clap = { version = "*", features = ["derive"] }
zip = "*"
reqwest = { version = "*", default-features = false, features = ["blocking", "rustls-tls"] }
