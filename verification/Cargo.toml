[package]
name = "osmgraph"
version = "0.1.0"
edition = "2021"
publish = false

[dependencies]
anyhow = "=1.0.104"
geo = "=0.30.0"
i_overlay = "=9.0.0"
log = "=0.4.34"
rstar = "=0.12.2"
serde = { version = "=1.0.229", features = ["derive"] }
