[package]
name = "dupwalker"
version = "0.1.0"
edition = "2021"
publish = false

[dependencies]
argh = "*"
crossbeam-channel = "*"
ignore = "*"
image = { version = "*", default-features = false, features = ["png", "jpeg", "gif", "bmp", "tiff", "webp", "ico", "pnm", "tga", "qoi", "hdr"] }
mime = "*"
mime_guess = "*"
rocket = { version = "0.5", features = ["json"] }
serde = { version = "1", features = ["derive"] }
