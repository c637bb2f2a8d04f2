[package]
name = "rustille"
version = "0.1.0"
edition = "2021"
publish = false

[dependencies]
image = { version = "0.25", default-features = false, features = ["png", "jpeg", "webp", "bmp", "gif", "tiff"] }
clap = { version = "4", features = ["derive"] }
anyhow = "1"
terminal_size = "0.4"
thiserror = "2"
