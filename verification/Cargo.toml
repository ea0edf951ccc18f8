[package]
name = "sonagram"
version = "0.2.16"
edition = "2021"
publish = false

[dependencies]
blake3 = { version = "1", features = ["pure"] }
serde = { version = "1", features = ["derive"] }
serde_json = "1"
ureq = "2"
thiserror = "2"
kglite = "*"
