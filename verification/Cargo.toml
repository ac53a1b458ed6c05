[package]
name = "watchlist"
version = "0.1.0"
edition = "2021"
publish = false

[dependencies]
rand = "=0.8.8"
teloxide = { version = "=0.13.0", default-features = false, features = ["macros", "rustls", "ctrlc_handler"] }
tokio = { version = "=1.54.1", features = ["rt-multi-thread", "macros"] }
dotenv = "=0.15.0"
log = "=0.4.34"
pretty_env_logger = "=0.5.0"
takecell = "=0.1.1"
