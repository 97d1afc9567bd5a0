[package]
name = "prmt"
version = "0.1.0"
edition = "2021"
publish = false

[dependencies]
unicode-width = "=0.2.3"
serde_json = "=1.0.154"
dirs = "=7.0.0"
rayon = "=1.12.0"
once_cell = "=1.21.4"
libc = "=0.2.191"
gix = { version = "=0.90.0", default-features = false, features = ["status", "sha1"] }
