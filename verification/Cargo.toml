[package]
name = "pptx-compressor"
version = "0.2.0"
edition = "2021"
publish = false

[dependencies]
bytesize = "1.3"
gif = "0.13"
zip = { version = "7", default-features = false, features = ["deflate"] }
walkdir = "2"
tempfile = "3"
dirs = "5"
image = { version = "0.25", default-features = false, features = ["jpeg", "png"] }
egui = { version = "0.29", default-features = false, features = ["default_fonts"] }
