[package]
name = "wall_clock"
version = "0.1.0"
edition = "2021"
publish = false

[dependencies]
serde = "*"
diesel = { version = "*", default-features = false, features = ["postgres_backend"] }
