[package]
name = "clink"
version = "0.1.0"
edition = "2021"
publish = false

[dependencies]
url = "*"
serde_json = "*"
uuid = { version = "*", features = ["v4"] }
clap = { version = "*", features = ["derive"] }
http = "*"
isahc = "*"
rpassword = "*"
serde = { version = "*", features = ["derive"] }
users = "*"
