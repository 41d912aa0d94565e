[package]
name = "tiaf"
version = "0.2.0"
edition = "2021"
publish = false

[dependencies]
sha3 = "=0.12.0"
serde_json = "=1.0.151"
uuid = { version = "=1.27.0", features = ["v4", "serde"] }
serde = { version = "=1.0.229", features = ["derive"] }
reqwest = { version = "=0.13.5", default-features = false, features = ["blocking", "json"] }
rouille = "=3.6.2"
clap = { version = "=4.6.7", features = ["derive"] }
toml = "=1.1.6"
chrono = "=0.4.45"
rand = "=0.10.3"
url = "=2.5.8"
niqqud = "=0.1.0"
unicode-bidi = "=0.3.18"
