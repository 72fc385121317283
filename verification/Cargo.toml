[package]
name = "cargo_registry"
version = "0.1.0"
edition = "2021"
publish = false

[dependencies]
ipnetwork = "=0.21.1"
semver = "=1.0.28"
threadpool = "=1.8.1"
diesel = { version = "=1.4.8", features = ["postgres", "r2d2"] }
dotenv = "=0.15.0"
cookie = { version = "=0.16.2", features = ["key-expansion", "signed"] }
clap = { version = "=4.6.7", features = ["derive"] }
http = "=0.2.12"
axum = "=0.6.20"
prometheus = "=0.13.4"
