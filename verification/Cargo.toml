[package]
name = "clippy_history"
version = "0.1.0"
edition = "2021"
publish = false

[dependencies]
chrono = { version = "0.4", default-features = false, features = ["now", "alloc", "std"] }
sha2 = "0.10"
rusqlite = { version = "0.32", features = ["bundled"] }
directories = "5"
arboard = "3"
image = { version = "0.25", default-features = false, features = ["png"] }
gtk4 = "0.9"
libadwaita = "0.7"
