[package]
name = "raur"
version = "0.1.0"
edition = "2021"
publish = false

[dependencies]
clap = "4"
nix = { version = "0.29", features = ["user"] }
reqwest = { version = "0.12", default-features = false, features = ["blocking", "json", "rustls-tls"] }
serde = { version = "1", features = ["derive"] }
