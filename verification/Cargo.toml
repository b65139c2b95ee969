[package]
name = "clinvoice"
version = "0.1.0"
edition = "2021"
publish = false

[dependencies]
base64 = "0.22"
chrono = "0.4"
urlencoding = "2"
clap = { version = "4", features = ["derive"] }
cli-table = "0.4"
diesel = { version = "2", features = ["sqlite"] }
libsqlite3-sys = { version = "*", features = ["bundled"] }
dirs = "5"
serde = { version = "1", features = ["derive"] }
serde_json = "1"
headless_chrome = "1"
