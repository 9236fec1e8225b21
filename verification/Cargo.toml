[package]
name = "chat_context"
version = "0.1.0"
edition = "2021"
publish = false

[dependencies]
serde_json = "=1.0.154"
napi = "=3.16.1"

[dev-dependencies]
bpe-openai = "=0.3.2"
