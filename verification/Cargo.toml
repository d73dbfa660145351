[package]
name = "activity_roles"
version = "0.1.0"
edition = "2021"
publish = false

[dependencies]
anyhow = "=1.0.104"
base64 = "=0.23.1"
bytes = "=1.12.1"
dotenv = "=0.15.0"
octocrab = "=0.47.1"
tokio = { version = "=1.53.2", features = ["full"] }
tracing = "=0.1.44"
tracing-subscriber = "=0.3.23"
twilight-cache-inmemory = "=0.17.1"
twilight-gateway = "=0.17.1"
twilight-http = "=0.17.1"
twilight-interactions = "=0.17.1"
twilight-model = "=0.17.1"
twilight-util = { version = "=0.17.0", features = ["builder"] }
