[package]
name = "volmount_btree"
version = "0.1.0"
edition = "2021"
publish = false

[dependencies]
bincode = "1.3"
serde = { version = "1", features = ["derive"] }
tokio = { version = "1", features = ["rt"] }
