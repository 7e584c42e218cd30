[package]
name = "megastore_search"
version = "0.1.0"
edition = "2021"
publish = false

[dependencies]
parking_lot = "0.12"
regex = "1"
rust-stemmers = "1.2"
serde = { version = "1", features = ["derive"] }
