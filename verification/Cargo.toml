[package]
name = "find_dupl_file"
version = "0.1.0"
edition = "2021"
publish = false

[dependencies]
sha2 = "0.10"
rusqlite = { version = "0.32", features = ["bundled"] }
serde = { version = "1", features = ["derive"] }
serde_json = "1"
walkdir = "2"
chrono = { version = "0.4", default-features = false, features = ["clock", "std"] }
dirs = "5"
