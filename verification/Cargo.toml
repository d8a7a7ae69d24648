[package]
name = "micromedia"
version = "0.1.0"
edition = "2021"
publish = false

[dependencies]
egui = { version = "0.29", default-features = false, features = ["default_fonts"] }
env_logger = "0.11"
image = { version = "0.25", default-features = false, features = ["jpeg", "png", "webp", "gif", "bmp"] }
libloading = "0.8"
log = "0.4"
rusqlite = { version = "0.32", features = ["bundled"] }
walkdir = "2"
xxhash-rust = { version = "0.8", features = ["xxh3"] }
