[package]
name = "git-include"
version = "0.1.0"
edition = "2021"
publish = false

[dependencies]
anyhow = "1"
clap = { version = "4", features = ["derive"] }
clap_complete = "4"
git2 = { version = "0.20", default-features = false }
sha2 = "0.10"
