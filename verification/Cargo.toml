[package]
name = "rag_core"
version = "0.1.0"
edition = "2021"
publish = false

[dependencies]
bm25 = "=2.3.2"
serde = { version = "=1.0.229", features = ["derive"] }
serde_json = "=1.0.154"
chromadb = "=2.3.0"
async-openai = { version = "=0.42.2", features = ["chat-completion", "embedding"] }
dotenv = "=0.15.0"
tokio = { version = "=1.54.1", features = ["full"] }

[dev-dependencies]
regex = "=1.13.1"
