[package]
name = "shelf"
version = "0.1.0"
edition = "2021"
publish = false

[dependencies]
epub = "*"
regex = "*"
xmltree = "*"
base64 = "*"
time = { version = "*", features = ["formatting", "parsing"] }
serde = { version = "*", features = ["derive"] }
serde_json = "*"
rayon = "*"
tokio = { version = "*", features = ["rt", "rt-multi-thread", "sync", "macros"] }
sqlx = { version = "*", default-features = false, features = ["runtime-tokio", "sqlite"] }
