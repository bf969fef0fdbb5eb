[package]
name = "smfh"
version = "1.5.0"
edition = "2021"
publish = false

[dependencies]
blake3 = { version = "1", features = ["mmap"] }
clap = { version = "4", features = ["derive"] }
color-eyre = "0.6"
log = "0.4"
rand = "0.9"
serde = { version = "1", features = ["derive"] }
serde_json = "1"
shellexpand = { version = "3", features = ["path"] }
simplelog = "0.12"
