[package]
name = "mikiwame"
version = "0.4.0"
edition = "2021"
publish = false

[dependencies]
chematic-core = "0.16.0"
chematic-crystal = "0.16.0"
chematic-mol = { version = "0.16.0", features = ["crystal"] }
serde = { version = "1", features = ["derive"] }
serde_json = "1"
