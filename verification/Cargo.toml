[package]
name = "reading_catalog"
version = "0.1.0"
edition = "2021"
publish = false

[dependencies]
chrono = { version = "0.4", default-features = false, features = ["clock"] }
rand = "0.8"
regex = "1"
serde = { version = "1", features = ["derive"] }
serde_derive = "1"
serde-xml-rs = "0.6"
