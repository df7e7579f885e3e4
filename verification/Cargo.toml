[package]
name = "clocking"
version = "0.1.0"
edition = "2021"
publish = false

[dependencies]
chrono = "0.4"
pulldown-cmark = "*"
rusqlite = { version = "*", features = ["bundled"] }
rocket = { version = "0.5", features = ["json"] }
clap = { version = "4", features = ["derive"] }
serde = { version = "1", features = ["derive"] }
