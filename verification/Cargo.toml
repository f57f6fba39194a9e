[package]
name = "tribbler"
version = "0.1.0"
edition = "2021"
publish = false

[dependencies]
rand = "0.8"
serde = { version = "1", features = ["derive"] }
serde_json = "1"
tokio = { version = "1", features = ["full"] }
tonic = { version = "0.6", features = ["compression"] }
prost = "0.9"
http = "0.2"
async-trait = "0.1"
clap = { version = "3", features = ["derive"] }
env_logger = "0.9"
log = "0.4"
local-ip-address = "0.5"
shlex = "1"
actix-web = "4"
actix-files = "0.6"
