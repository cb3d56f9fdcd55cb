[package]
name = "azure_subnet_summary"
version = "0.1.0"
edition = "2021"
publish = false

[dependencies]
regex = "1"
colored = "2"
serde = { version = "1", features = ["derive"] }
serde_json = "1"
serde_path_to_error = "0.1"
chrono = "0.4"
chrono-tz = "0.10"
clap = { version = "4", features = ["derive"] }
log = "0.4"
log4rs = "1"
dotenv = "0.15"
