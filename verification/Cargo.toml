[package]
name = "icfpc2020"
version = "0.1.0"
edition = "2021"
publish = false

[dependencies]
rand = "=0.7.3"
colorous = "=1.0.16"
image = { version = "=0.23.14", default-features = false, features = ["png"] }
reqwest = { version = "=0.11.27", default-features = false, features = ["blocking", "rustls-tls"] }
tokio = { version = "=1.54.1", features = ["rt-multi-thread"] }
colored = "=2.2.0"
crossbeam = "=0.8.5"
num = "0.4"
