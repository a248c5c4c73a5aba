[package]
name = "mr_pdf"
version = "0.1.0"
edition = "2021"
publish = false

[dependencies]
md5 = "*"
flate2 = "*"
base64 = "*"
ttf-parser = "*"
pulldown-cmark = { version = "*", default-features = false }
roxmltree = "*"
image = { version = "*", default-features = false, features = ["png", "jpeg"] }
