[package]
name = "ksbd_bot"
version = "0.1.0"
edition = "2021"
publish = false

[dependencies]
async-trait = "=0.1.92"
dotenv = "=0.15.0"
dptree = "=0.3.0"
futures = "=0.3.34"
image = "=0.24.9"
lazy_static = "=1.5.1"
log = "=0.4.34"
pretty_env_logger = "=0.5.0"
reqwest = "=0.11.27"
scraper = "=0.17.1"
takecell = "=0.1.1"
teloxide = { version = "=0.12.2", features = ["macros"] }
tokio = { version = "=1.53.2", features = ["full"] }
urlencoding = "=2.1.3"
