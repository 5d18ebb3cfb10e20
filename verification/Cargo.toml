[package]
name = "tsunami_simulation"
version = "0.1.0"
edition = "2021"

[dependencies]
rand = "*"
serde = { version = "*", features = ["derive"] }
serde_json = "*"
rayon = "*"
actix-web = "*"
actix-cors = "*"
env_logger = "*"
