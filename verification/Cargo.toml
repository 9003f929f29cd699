[package]
name = "ironbus_server"
version = "0.1.0"
edition = "2021"
publish = false

[dependencies]
raft = { version = "=0.7.0", default-features = false, features = ["protobuf-codec"] }
protobuf = "=2.28.0"
tracing = "0.1"
