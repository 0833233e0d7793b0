[package]
name = "train_tickets"
version = "0.1.0"
edition = "2021"
publish = false

[dependencies]
scraper = "=0.19.1"
reqwest = "=0.11.27"
tokio = { version = "=1.54.1", features = ["full"] }
sqlx = { version = "=0.7.4", features = ["sqlite", "runtime-tokio"] }
frankenstein = { version = "=0.30.8", features = ["async-http-client"] }
chrono = "=0.4.45"
dotenv = "=0.15.0"
