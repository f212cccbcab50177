[package]
name = "xdremux"
version = "0.1.0"
edition = "2021"
publish = false

[dependencies]
heif-oxide = "*"
jpeg-decoder = "0.3"
serde_json = "1"
