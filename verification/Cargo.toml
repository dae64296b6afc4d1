[package]
name = "yachat"
version = "0.1.0"
edition = "2021"
publish = false

[dependencies]
chrono = "=0.4.45"
serde_json = "=1.0.151"
serde = { version = "*", features = ["derive"] }
log = "*"
anyhow = "*"
thiserror = "*"
structopt = "*"
dotenv = "*"
flexi_logger = "*"
actix = "*"
actix-rt = "*"
async-std = "*"
tokio = { version = "*", features = ["signal", "time", "rt", "macros"] }
ya-client = { version = "=0.9.0", features = ["cli"] }
ya-service-bus = "*"
ya-agreement-utils = "=0.5.0"
