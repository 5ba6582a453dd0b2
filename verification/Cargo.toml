[package]
name = "html_parser"
version = "0.1.0"
edition = "2021"
publish = false

[dependencies]
scraper = "*"
rust-crypto = "*"
serde = { version = "*", features = ["derive"] }
serde_json = "*"
uuid = { version = "*", features = ["serde", "v4"] }
chrono = { version = "*", features = ["serde"] }
diesel = { version = "*", features = ["postgres", "r2d2", "uuid", "chrono"] }
dotenv = "*"
log = "*"
log4rs = "*"
