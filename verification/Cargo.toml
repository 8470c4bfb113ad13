[package]
name = "manifest_sync"
version = "0.1.0"
edition = "2021"
publish = false

[dependencies]
sha2 = "*"
rayon = "*"
urlencoding = "*"
reqwest = { version = "*", default-features = false, features = ["blocking", "rustls-tls"] }
walkdir = "*"
zip = "*"

[dev-dependencies]
serde_json = "*"
