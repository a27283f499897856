[package]
name = "marf_index"
version = "0.1.0"
edition = "2021"
publish = false

[dependencies]
sha2 = "0.10"
rapidhash = "*"
rand = "0.8"
memmap2 = "0.9"
nix = "0.23"
rusqlite = { version = "0.31", features = ["bundled", "blob"] }
serde = { version = "1", features = ["derive"] }
