[package]
name = "sd_cwt"
version = "0.1.0"
edition = "2021"
publish = false

[dependencies]
cbor_event = "=2.4.0"
itertools = "=0.15.0"
jwt-simple = { version = "=0.12.17", default-features = false, features = ["pure-rust"] }
serde = { version = "=1.0.229", features = ["derive"] }
serde_yaml = "=0.9.34"
thiserror = "=2.0.21"
