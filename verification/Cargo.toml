[package]
name = "optifunkin"
version = "0.1.0"
edition = "2021"
publish = false

[dependencies]
clap = { version = "*", features = ["derive"] }
colog = "*"
env_logger = "*"
image = "*"
log = "*"
rayon = "*"
roxmltree = "*"
sanitize-filename = "*"
tempfile = "*"
walkdir = "*"
