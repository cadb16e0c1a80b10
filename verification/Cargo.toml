[package]
name = "oxiserve"
version = "0.1.0"
edition = "2021"
publish = false

[dependencies]
memchr = "2"
httparse = "1"
regex = "1"
flate2 = "1"
libc = "0.2"
memmap2 = "0.9"
socket2 = { version = "0.5", features = ["all"] }
tokio = { version = "1", features = ["full"] }
rustls = { version = "0.23", default-features = false, features = ["ring", "std", "tls12", "logging"] }
tokio-rustls = { version = "0.26", default-features = false, features = ["ring", "tls12", "logging"] }
rustls-pemfile = "2"
quinn = { version = "0.11", default-features = false, features = ["runtime-tokio", "rustls-ring", "log"] }
core_affinity = "0.8"
