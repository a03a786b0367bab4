[package]
name = "async-priority-lock"
version = "1.0.2"
edition = "2021"
publish = false

[dependencies]
const-default = "1"
serde = { version = "1", features = ["derive"] }
