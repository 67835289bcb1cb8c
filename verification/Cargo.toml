[package]
name = "khttp"
version = "0.1.0"
edition = "2021"
publish = false

[dependencies]
http = "*"
id-pool = "*"
mio = { version = "*", features = ["net", "os-poll", "os-ext"] }
