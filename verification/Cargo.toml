[package]
name = "byteranges"
version = "0.1.0"
edition = "2021"
publish = false

[dependencies]
httparse = "*"
http-content-range = "*"
bytes = "*"
http = "*"
reqwest = { version = "*", default-features = false, features = ["blocking"] }
rope_rd = "*"
