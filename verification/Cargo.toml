[package]
name = "topolsea"
version = "0.1.0"
edition = "2021"
publish = false

[dependencies]
roaring = "0.10"
serde = { version = "1", features = ["derive"] }
serde_json = "1"
rand = "0.8"
parking_lot = "0.12"
