[package]
name = "phone_records"
version = "0.1.0"
edition = "2021"
publish = false

[dependencies]
actix = "0.7"
actix-web = { version = "0.7", default-features = false }
futures = "0.1"
rocksdb = "0.12"
serde = "1"
serde_derive = "1"
serde_json = "1"
time = "0.1"
