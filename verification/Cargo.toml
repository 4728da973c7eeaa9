[package]
name = "sqllite"
version = "0.1.0"
edition = "2021"
publish = false

[dependencies]
anyhow = "1"
clap = { version = "4", features = ["derive"] }
logos = "0.14"
parking_lot = "0.12"
thiserror = "1"
