[package]
name = "dual"
version = "0.1.0"
edition = "2021"
publish = false

[dependencies]
rkyv = "0.8"
glam = "0.31"
serde = { version = "1", features = ["derive"] }
thiserror = "2"
