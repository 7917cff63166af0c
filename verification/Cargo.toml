[package]
name = "cosmos_dump"
version = "0.1.0"
edition = "2021"
publish = false

[dependencies]
azure_data_cosmos = { version = "=0.38.0", features = ["control_plane", "key_auth"] }
clap = { version = "=4.6.7", features = ["derive"] }
serde = { version = "=1.0.229", features = ["derive"] }
serde_json = "=1.0.151"
tokio = { version = "=1.53.2", features = ["macros", "rt", "fs"] }
tokio-stream = "=0.1.19"
