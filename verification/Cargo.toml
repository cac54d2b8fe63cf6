[package]
name = "ahpcl"
version = "0.1.0"
edition = "2021"
publish = false

[dependencies]
inkwell = { version = "*", features = ["llvm18-1"] }
unicode-segmentation = "=1.13.3"
unicode-width = "=0.2.3"
