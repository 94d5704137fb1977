[package]
name = "storage"
version = "0.1.0"
edition = "2021"
publish = false

[dependencies]
ethers = { version = "2.0", default-features = false }
num-bigint = "0.4"
sqlx = { version = "0.7", default-features = false, features = ["bigdecimal", "postgres", "runtime-tokio"] }
