[package]
name = "quick_kv"
version = "0.1.0"
edition = "2021"
publish = false

[dependencies]
chrono = "0.4"
bincode = "1"
serde = { version = "1", features = ["derive"] }
log = "0.4"
simple_logger = "*"
clap = "4"
rayon = "1"
time = { version = "0.3", features = ["formatting", "macros"] }
