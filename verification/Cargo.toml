[package]
name = "chaintalk"
version = "0.1.0"
edition = "2021"
publish = false

[dependencies]
ethers-core = "=2.0.14"
siwe = "=0.6.1"
jsonwebtoken = { version = "=11.1.0", features = ["rust_crypto"] }
uuid = { version = "=1.27.0", features = ["v4"] }
axum = { version = "*", features = ["ws"] }
tokio = { version = "*", features = ["full"] }
tower-http = { version = "*", features = ["cors", "fs"] }
redis = { version = "*", features = ["tokio-comp"] }
bb8 = "*"
bb8-redis = "*"
chrono = "*"
serde = { version = "*", features = ["derive"] }
serde_json = "*"
dotenv = "*"
tracing = "*"
tracing-subscriber = "*"
futures-util = "*"
tokio-stream = "*"
thiserror = "*"

[dev-dependencies]
ethers-signers = "=2.0.14"
