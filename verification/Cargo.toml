[package]
name = "pdfmerge"
version = "0.1.0"
edition = "2021"
publish = false

[dependencies]
lopdf = "*"
clap = { version = "4", features = ["derive"] }
