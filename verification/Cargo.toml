[package]
name = "feishu2everywhere"
version = "0.1.0"
edition = "2021"
publish = false

[dependencies]
base64 = "*"
sha2 = "*"
thirtyfour = "*"
tokio = { version = "*", features = ["full"] }
chrono = "*"
crossterm = "*"
