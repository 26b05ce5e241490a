[package]
name = "lsh_service"
version = "0.1.0"
edition = "2021"
publish = false

[dependencies]
sha2 = "*"
serde = { version = "*", features = ["derive"] }
serde_json = "*"
redis = "*"
actix-web = "*"
futures = "*"
dotenv = "*"
lsh-rs = "*"
colored = "*"
thiserror = "*"
