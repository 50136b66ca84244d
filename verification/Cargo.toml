[package]
name = "cif_stage0"
version = "0.1.0"
edition = "2021"
publish = false

[dependencies]
rand = "=0.8.5"
serde = { version = "1", features = ["derive"] }
