[package]
name = "ruckup"
version = "0.1.0"
edition = "2021"
publish = false

[dependencies]
anyhow = "=1.0.104"
clap = { version = "=4.6.7", features = ["derive"] }
colored = "=2.2.0"
dialoguer = "=0.11.0"
dirs = "=5.0.1"
futures = "=0.3.34"
ignore = "=0.4.34"
indicatif = "=0.17.11"
lopdf = { version = "=0.34.0", default-features = false, features = ["nom_parser"] }
node-semver = "=2.2.0"
pep440_rs = "=0.7.3"
reqwest = { version = "=0.12.28", default-features = false, features = ["json", "rustls-tls"] }
semver = "=1.0.28"
serde = { version = "=1.0.229", features = ["derive"] }
serde_json = "=1.0.154"
tokio = { version = "=1.54.1", features = ["macros", "rt-multi-thread", "process", "sync", "time"] }
toml = "=0.8.23"
toml_edit = "=0.22.27"
webbrowser = "=1.2.6"
