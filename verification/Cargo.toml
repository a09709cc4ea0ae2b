[package]
name = "serde_store"
version = "0.1.0"
edition = "2021"
publish = false

[dependencies]
byteorder = "1"
serde = { version = "1", features = ["derive"] }
thiserror = "*"
either = { version = "1", features = ["serde"] }
anyhow = "1"
colored = "*"
reqwest = { version = "*", default-features = false, features = ["blocking"] }
