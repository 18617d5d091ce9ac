[package]
name = "url_album"
version = "0.1.0"
edition = "2021"
publish = false

[dependencies]
encoding_rs = "0.8"
image = "0.25"
object = "0.36"
serde_json = "1"
rusqlite = { version = "0.31", features = ["bundled", "backup"] }
ureq = "2"
chrono = "0.4"
