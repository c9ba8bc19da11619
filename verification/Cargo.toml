[package]
name = "sequin_core"
version = "0.1.0"
edition = "2021"
publish = false

[dependencies]
anyhow = "1"
chrono = { version = "0.4", default-features = false, features = ["std", "clock"] }
image = { version = "0.25", default-features = false, features = ["jpeg", "png"] }
jpeg-decoder = "0.3"
little_exif = "0.6"
percent-encoding = "2"
rayon = "1"
rustdct = "0.7"
serde = { version = "1", features = ["derive"] }
serde_json = "1"

[dev-dependencies]
tempfile = "3"
