[package]
name = "vector_search"
version = "0.1.0"
edition = "2021"
publish = false

[dependencies]
actix-web = "4"
dotenvy = "0.15"
serde = { version = "1", features = ["derive"] }
serde_json = "1"
