[package]
name = "adder_algorithm"
version = "0.1.0"
edition = "2021"
publish = false

[dependencies]
once_cell = "1"
rayon = "1"
regex = "1"
serde = { version = "1", features = ["derive"] }
