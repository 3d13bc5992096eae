[package]
name = "notignored"
version = "0.1.0"
edition = "2021"
publish = false

[dependencies]
anstream = "*"
anstyle = "*"
clap = { version = "*", features = ["derive"] }
ignore = "*"
serde = { version = "*", features = ["derive"] }
serde_json = "*"
thiserror = "*"
