[package]
name = "namegen"
version = "0.1.0"
edition = "2021"
publish = false

[dependencies]
serde_json = "*"
anyhow = "*"
dotenv = "*"
futures = "*"
genai = "*"
tokio = { version = "*", features = ["macros", "rt-multi-thread"] }
