[package]
name = "state_pruner"
version = "0.1.0"
edition = "2021"
publish = false

[dependencies]
rayon = "1"
once_cell = "1"
serde = { version = "1", features = ["derive"] }
serde_json = "1"
chrono = "0.4"
