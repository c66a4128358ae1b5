[package]
name = "sitegen"
version = "0.1.0"
edition = "2021"

[dependencies]
chrono = "*"
markdown = "1.0.0-alpha"
clap = { version = "*", features = ["derive"] }
fs_extra = "*"
minijinja = { version = "*", features = ["loader"] }
rouille = "*"
serde = { version = "*", features = ["derive"] }
