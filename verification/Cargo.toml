[package]
name = "uzh_biomed_bot"
version = "0.1.0"
edition = "2021"
publish = false

[dependencies]
dotenv = "*"
tbot = "*"
tokio = { version = "*", features = ["full"] }
