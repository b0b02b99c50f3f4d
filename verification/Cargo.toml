[package]
name = "torrent_meta"
version = "0.1.0"
edition = "2021"
publish = false

[dependencies]
argh = "0.1"
chrono = "0.4"
hex = "0.4"
indicatif = "*"
natlex_sort = "*"
natord = "1"
rayon = "1"
serde = { version = "1", features = ["derive"] }
sha1 = "0.10"
toml = "*"
walkdir = "2"
