[package]
name = "name_similarity"
version = "0.1.0"
edition = "2021"
publish = false

[dependencies]
clap = { version = "=4.6.7", features = ["derive"] }
opentelemetry = "0.20"
opentelemetry-http = "0.9"
opentelemetry-otlp = { version = "0.13", default-features = false, features = ["http-proto", "reqwest-blocking-client", "trace"] }
regex = "=1.13.1"
reqwest = { version = "0.11", default-features = false, features = ["blocking"] }
tracing = "=0.1.44"
tracing-opentelemetry = "0.21"
tracing-subscriber = "=0.3.23"
walkdir = "=2.5.0"
