[package]
name = "duckmail"
version = "0.1.0"
edition = "2021"
publish = false

[dependencies]
anyhow = "1"
clap = { version = "4", features = ["derive"] }
dirs = "*"
prettytable-rs = "*"
serde = { version = "1", features = ["derive"] }
ureq = { version = "2", default-features = false, features = ["json"] }
