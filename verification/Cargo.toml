[package]
name = "mus_search"
version = "0.1.0"
edition = "2021"
publish = false

[dependencies]
rust-stemmers = "1.2"
poppler-rs = "*"
serde = { version = "1", features = ["derive"] }
serde_json = "1"
actix-web = { version = "4", default-features = false, features = ["macros"] }
actix-files = "0.6"
mime_guess = "2"
indicatif = "0.17"
rayon = "1"
reqwest = { version = "0.11", default-features = false, features = ["blocking"] }
