[package]
name = "pdfbox"
version = "0.1.0"
edition = "2021"
publish = false

[dependencies]
image = { version = "=0.25.10", default-features = false, features = ["png", "tiff"] }
jpeg-decoder = { version = "=0.3.2", default-features = false }
lcms2 = "=6.2.0"
weezl = "=0.2.1"

[dev-dependencies]
flate2 = "*"
