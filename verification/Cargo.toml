[package]
name = "arch-rebuild-order"
version = "0.1.0"
edition = "2021"
publish = false

[dependencies]
alpm = "*"
anyhow = "1"
clap = { version = "4", features = ["derive"] }
clap_complete = "4"
petgraph = "0.6"
thiserror = "1"
