[package]
name = "bittorrent_rust"
version = "0.1.0"
edition = "2021"
publish = false

[dependencies]
anyhow = "1"
clap = { version = "4", features = ["derive"] }
hex = "0.4"
indicatif = "0.17"
rand = "0.8"
reqwest = { version = "0.11", default-features = false, features = ["rustls-tls"] }
sha1 = "0.10"
tokio = { version = "1", features = ["full"] }
url = "2"
