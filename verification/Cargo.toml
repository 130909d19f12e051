[package]
name = "viua"
version = "0.1.0"
edition = "2021"
publish = false

[dependencies]
image = { version = "0.25", default-features = false, features = ["png", "jpeg", "gif", "webp", "bmp", "ico", "tiff", "tga"] }
glob = "0.3"
clap = { version = "4", features = ["cargo"] }
crossterm = "*"
gif = "*"
viuer = "*"
tempfile = "3"
ureq = "2"
