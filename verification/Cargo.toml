[package]
name = "swath"
version = "0.1.0"
edition = "2021"
publish = false

[dependencies]
anyhow = "1"
memmap2 = "0.9"
miniz_oxide = "0.8"
png = "0.17"
rayon = "1"
serde = { version = "1", features = ["derive"] }
serde_json = "1"
ureq = "2"
