[package]
name = "kademlia"
version = "0.1.0"
edition = "2021"
publish = false

[dependencies]
bincode = "1"
chrono = "0.4"
colored = "2"
ctrlc = "3"
fs2 = "0.4"
rand = "0.8"
serde = { version = "1", features = ["derive"] }
sha1 = "0.10"
