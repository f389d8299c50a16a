[package]
name = "git-metadata"
version = "0.2.1"
edition = "2021"
publish = false

[dependencies]
clap = { version = "4", features = ["derive"] }
clap_mangen = "0.2"
git2 = { version = "0.20", default-features = false }
