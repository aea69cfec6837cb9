[package]
name = "od2net"
version = "0.1.0"
edition = "2021"
publish = false

[dependencies]
anyhow = "*"
clap = { version = "*", features = ["derive"] }
fs-err = "*"
geojson = "*"
indicatif = "*"
instant = "*"
serde = { version = "*", features = ["derive"] }
serde_json = "*"
