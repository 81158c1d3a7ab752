[package]
name = "proteus_core"
version = "0.1.0"
edition = "2021"
publish = false

[dependencies]
base64 = "*"
bincode = "1"
chacha20poly1305 = "*"
clap = { version = "*", features = ["derive"] }
dotenv = "*"
rand = "*"
raptorq = "*"
serde = { version = "*", features = ["derive"] }
smoltcp = "*"
tokio = { version = "*", features = ["rt-multi-thread", "net", "time", "macros"] }
tun = "*"
