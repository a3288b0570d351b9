[package]
name = "ndlocr_lite_rs"
version = "0.1.0"
edition = "2021"
publish = false

[dependencies]
anyhow = "=1.0.104"
clap = { version = "=4.6.7", features = ["derive"] }
delarocha = { version = "=0.1.1", features = ["vibrato-system"] }
image = "=0.25.10"
ndarray = "=0.16.1"
once_cell = "=1.21.4"
ort = { version = "=2.0.0-rc.15", default-features = false, features = ["ndarray", "load-dynamic"] }
rayon = "=1.12.0"
serde = { version = "=1.0.229", features = ["derive"] }
serde_json = "=1.0.154"
serde_yaml = "=0.9.34"
zip = "=2.6.1"
