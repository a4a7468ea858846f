[package]
name = "smtkit"
version = "0.1.0"
edition = "2021"
publish = false

[dependencies]
shell-words = "1"
thiserror = "*"
anyhow = "1"
serde_json = "1"
clap = { version = "4", features = ["derive"] }
z3 = "*"
