[package]
name = "handy"
version = "0.1.0"
edition = "2021"
publish = false

[dependencies]
chrono = "0.4"
rusqlite = { version = "*", features = ["bundled"] }
rusqlite_migration = "*"
hound = "3"
serde = { version = "1", features = ["derive"] }
anyhow = "1"
log = "0.4"
once_cell = "1"
