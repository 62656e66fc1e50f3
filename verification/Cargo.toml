[package]
name = "havn"
version = "0.1.14"
edition = "2021"
publish = false

[dependencies]
async-channel = "2"
clap = { version = "4", features = ["derive"] }
os_info = "3"
tokio = { version = "1", features = ["macros", "net", "rt-multi-thread", "time"] }
