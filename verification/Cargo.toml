[package]
name = "ic_event_hub"
version = "0.1.0"
edition = "2021"
publish = false

[dependencies]
candid = "0.10"
leb128 = "0.2"
ic-cdk = "*"
futures = "0.3"
serde = { version = "1", features = ["derive"] }
