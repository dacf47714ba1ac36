[package]
name = "merkle_store"
version = "0.1.0"
edition = "2021"
publish = false

[dependencies]
blake3 = "1"
dotenv = "0.15"
reqwest = { version = "0.11", default-features = false, features = ["json"] }
serde = { version = "1", features = ["derive"] }
thiserror = "1"
tokio = { version = "1", features = ["full"] }
warp = "0.3"
