[package]
name = "pixelview"
version = "0.1.0"
edition = "2021"
publish = false

[dependencies]
image = { version = "0.25", default-features = false, features = ["gif", "png"] }
unarc-rs = "*"
ureq = "2"
rusqlite = { version = "*", features = ["bundled"] }
