[package]
name = "dupefinder"
version = "0.1.0"
edition = "2021"
publish = false

[dependencies]
anyhow = "1"
blake2 = "0.9"
env_logger = "0.9"
ffmpeg-next = "4"
glob = "0.3"
log = "0.4"
ndarray = "0.15"
rayon = "1"
rouille = "3"
rusqlite = { version = "0.25", features = ["bundled"] }
serde = { version = "1", features = ["derive"] }
simple-error = "0.2"
structopt = "0.3"
tera = "1"
