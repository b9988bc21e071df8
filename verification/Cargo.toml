[package]
name = "cli_ob"
version = "0.1.0"
edition = "2021"
publish = false

[dependencies]
crossterm = "0.28"
futures-util = "0.3"
reqwest = { version = "0.12", default-features = false, features = ["json", "rustls-tls"] }
serde = { version = "1", features = ["derive"] }
serde_json = "1"
tokio = { version = "1", features = ["full"] }
tokio-tungstenite = { version = "0.24", features = ["rustls-tls-webpki-roots"] }

[dev-dependencies]
ordered-float = "4"
