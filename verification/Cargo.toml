[package]
name = "trinculo"
version = "0.1.0"
edition = "2021"
publish = false

[dependencies]
image = { version = "0.25", default-features = false, features = ["png", "jpeg", "gif", "bmp", "ico", "tiff", "webp", "pnm", "tga", "hdr", "qoi"] }
thiserror = "2"
argh = "0.1"
rayon = "1"
simple_logger = "5"
log = "0.4"
