[package]
name = "swissdraw"
version = "0.1.0"
edition = "2021"
publish = false

[dependencies]
rand = "=0.8.8"
csv = "=1.4.0"
serde = { version = "=1.0.229", features = ["derive"] }
rusqlite = { version = "=0.41.1", features = ["bundled"] }
nalgebra = "=0.35.0"
good_lp = { version = "=1.15.3", default-features = false, features = ["microlp"] }
directories = "=6.0.0"
