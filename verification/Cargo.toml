[package]
name = "http_profiler"
version = "0.1.0"
edition = "2021"
publish = false

[dependencies]
clap = "*"
native-tls = "*"
url = "*"
