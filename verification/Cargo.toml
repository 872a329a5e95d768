[package]
name = "rustydb"
version = "0.1.0"
edition = "2021"
publish = false

[dependencies]
anyhow = "1"
clap = { version = "4", features = ["derive"] }
seahash = "4"
sqlparser = "0.52"
