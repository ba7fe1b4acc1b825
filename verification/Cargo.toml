[package]
name = "tinybase"
version = "0.1.0"
edition = "2021"
publish = false

[dependencies]
actix = "=0.13.5"
actix-files = "=0.6.10"
actix-web = { version = "=4.18.1", default-features = false, features = ["macros", "ws"] }
actix-web-actors = "=4.3.1"
diesel = { version = "=2.3.14", features = ["sqlite", "r2d2"] }
dotenv = "=0.15.0"
env_logger = "=0.10.2"
futures = "=0.3.34"
log = "=0.4.35"
serde = { version = "=1.0.229", features = ["derive"] }
urlencoding = "=2.1.3"
uuid = { version = "=1.29.0", features = ["v4"] }
