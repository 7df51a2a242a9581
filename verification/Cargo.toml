[package]
name = "doctreeai"
version = "0.1.0"
edition = "2021"
publish = false

[dependencies]
sha2 = "=0.11.0"
serde = { version = "=1.0.229", features = ["derive"] }
serde_json = "=1.0.151"
log = "=0.4.34"
env_logger = "=0.11.11"
clap = { version = "=4.6.7", features = ["derive"] }
dotenvy = "=0.15.7"
ignore = "=0.4.33"
pathdiff = "=0.2.3"
thiserror = "=2.0.21"
tokio = { version = "=1.53.2", features = ["rt-multi-thread", "macros", "time"] }
async-openai = { version = "=0.42.1", features = ["chat-completion"] }
