[package]
name = "hydro"
version = "0.1.0"
edition = "2021"
publish = false

[dependencies]
uuid = { version = "=1.29.0", features = ["v4", "serde"] }
base64 = "=0.21.7"
bincode = { version = "=2.0.1", features = ["serde"] }
serde = { version = "=1.0.229", features = ["derive"] }
mlua = { version = "=0.9.9", features = ["lua54", "vendored", "unstable"] }
tiled = "=0.11.2"
warp = "=0.3.7"
tokio = { version = "=1.54.1", features = ["rt-multi-thread", "sync", "macros"] }
tokio-stream = "=0.1.19"
futures = "=0.3.34"
immutable_string = "=0.1.1"
