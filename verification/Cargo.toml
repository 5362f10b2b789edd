[package]
name = "parser"
version = "0.1.0"
edition = "2021"
publish = false

[dependencies]
xml-rs = "0.8"
quick-xml = "*"
chrono = "0.4"
clap = { version = "4", features = ["derive"] }
env_logger = "*"
log = "0.4"
xlsxwriter = "*"
