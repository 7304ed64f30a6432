[package]
name = "gto_cli"
version = "0.1.0"
edition = "2021"
publish = false

[dependencies]
rand = "0.8"
rayon = "1"
serde = { version = "1", features = ["derive"] }
bincode = "1"
colored = "2"
once_cell = "1"
