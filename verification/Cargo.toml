[package]
name = "openlrlens"
version = "0.1.0"
edition = "2021"
publish = false

[dependencies]
anyhow = "1"
duckdb = "1"
flate2 = "1"
hex = "0.4"
indicatif = "0.17"
rayon = "1"
serde = { version = "1", features = ["derive"] }
serde_json = "1"
thiserror = "1"
tracing = "0.1"
