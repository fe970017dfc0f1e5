[package]
name = "nestix_fmt"
version = "0.1.0"
edition = "2021"
publish = false

[dependencies]
syn = { version = "2", features = ["full", "parsing"] }
clap = { version = "4", features = ["derive"] }
ignore = "0.4"
serde_json = "1"
