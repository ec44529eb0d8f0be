[package]
name = "card_exchange"
version = "0.1.0"
edition = "2021"
publish = false

[dependencies]
actix-cors = "*"
actix-web = "4"
actix-web-lab = "*"
anyhow = "1"
async-trait = "0.1"
chrono = { version = "0.4", features = ["serde"] }
dotenv = "0.15"
env_logger = "*"
envconfig = "*"
futures = "0.3"
juniper = { version = "*", features = ["chrono"] }
log = "0.4"
serde = { version = "1", features = ["derive"] }
sqlx = { version = "*", default-features = false, features = ["postgres", "runtime-tokio", "chrono", "macros"] }
