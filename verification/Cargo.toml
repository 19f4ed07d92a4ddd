[package]
name = "bellini"
version = "0.1.0"
edition = "2021"
publish = false

[dependencies]
anyhow = "1"
humansize = "2"
lz4_flex = "0.11"
rkyv = "0.7"
serde = { version = "1", features = ["derive"] }
serde_json = "1"
