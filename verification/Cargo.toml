[package]
name = "repomirror"
version = "0.1.0"
edition = "2021"
publish = false

[dependencies]
lz4 = "*"
anyhow = "*"
clap = { version = "*", features = ["derive"] }
git2 = { version = "*", default-features = false }
rusqlite = { version = "*", features = ["bundled"] }
rusqlite_migration = "*"
