[package]
name = "pdf_inspector"
version = "0.1.0"
edition = "2021"
publish = false

[dependencies]
lopdf = "=0.39.0"
thiserror = "2"
