[package]
name = "notify_server"
version = "0.1.0"
edition = "2021"
publish = false

[dependencies]
actix-web = { version = "4", default-features = false, features = ["macros"] }
clap = { version = "4", features = ["derive"] }
notify-rust = "4"
serde = { version = "1", features = ["derive"] }
