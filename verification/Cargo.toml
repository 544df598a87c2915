[package]
name = "vibevoice"
version = "0.1.0"
edition = "2021"
publish = false

[dependencies]
anyhow = "1"
candle-core = "0.9"
candle-nn = "0.9"
clap = { version = "4", features = ["derive"] }
hf-hub = { version = "0.4", default-features = false, features = ["ureq", "rustls-tls"] }
rubato = "0.16"
serde = { version = "1", features = ["derive"] }
serde_json = "1"
symphonia = { version = "0.5", features = ["all"] }
thiserror = "2"
tokenizers = "0.21"
