[package]
name = "minx"
version = "0.1.0"
edition = "2021"
publish = false

[dependencies]
url = "2"
serde_json = "1"
serde = { version = "1", features = ["derive"] }
actix-web = "4"
actix-ws = "0.3"
actix-files = "0.6"
clap = { version = "4", features = ["derive"] }
futures-util = "0.3"
maud = "0.26"
sqlx = { version = "0.8", default-features = false, features = ["runtime-tokio", "sqlite", "derive"] }
uuid = { version = "1", features = ["v4"] }
