[package]
name = "chat_stream"
version = "0.1.0"
edition = "2021"
publish = false

[dependencies]
anyhow = "1"
async-stream = "0.3"
directories = "5"
futures-util = { version = "0.3", features = ["io"] }
reqwest = { version = "0.11", features = ["json", "stream"] }
rustyline = "12"
serde = { version = "1", features = ["derive"] }
serde_json = "1"
structopt = "0.3"
tokio = { version = "1", features = ["full"] }
toml = "0.7"
