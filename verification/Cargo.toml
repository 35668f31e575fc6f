[package]
name = "scd_topology_checker"
version = "0.1.0"
edition = "2021"
publish = false

[dependencies]
ahash = "=0.8.12"
anyhow = "=1.0.104"
clap = { version = "=4.6.7", features = ["derive"] }
quick-xml = "=0.37.5"
rayon = "=1.12.0"
