[package]
name = "course_manager"
version = "0.1.0"
edition = "2021"
publish = false

[dependencies]
clap = { version = "4", features = ["derive"] }
serde = { version = "1", features = ["derive"] }
serde_json = "1"
tabled = "*"
dirs = "*"
indoc = "*"
enum-iterator = "*"
spinoff = "*"
reqwest = { version = "0.11", default-features = false, features = ["blocking"] }
