[package]
name = "market"
version = "0.1.0"
edition = "2021"
publish = false

[dependencies]
actix = "*"
actix-web = "*"
failure = "0.1"
futures = "*"
getopts = "0.2"
rusqlite = { version = "*", features = ["bundled"] }
serde = { version = "1", features = ["derive"] }
serde_json = "1"
time = "0.1"
uuid = { version = "1", features = ["v4"] }
