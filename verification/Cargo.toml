[package]
name = "ranked_playlists"
version = "0.1.0"
edition = "2021"
publish = false

[dependencies]
csv = "=1.4.0"
dotenv = "=0.15.0"
eyre = "=0.6.14"
reqwest = { version = "=0.11.27", default-features = false, features = ["blocking"] }
serde = { version = "=1.0.229", features = ["derive"] }
serde_json = "=1.0.151"
zip = { version = "=0.6.6", default-features = false }
