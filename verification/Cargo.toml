[package]
name = "bufo_search"
version = "0.1.0"
edition = "2021"
publish = false

[dependencies]
regex = "1"
serde_json = "1"
serde = { version = "1", features = ["derive"] }
actix-web = "4"
actix-cors = "0.7"
actix-files = "0.6"
actix-governor = "*"
anyhow = "1"
dotenv = "0.15"
log = "0.4"
logfire = "*"
opentelemetry-instrumentation-actix-web = "*"
reqwest = { version = "0.12", features = ["json"] }
thiserror = "1"
tracing = "0.1"
