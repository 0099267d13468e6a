[package]
name = "spandex"
version = "0.1.0"
edition = "2021"
publish = false

[dependencies]
printpdf = { version = "0.3", default-features = false }
serde = { version = "1", features = ["derive"] }
