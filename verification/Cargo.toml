[package]
name = "status_probe"
version = "0.1.0"
edition = "2021"
publish = false

[dependencies]
anyhow = "*"
async-minecraft-ping = "*"
libc-strftime = "*"
tokio = { version = "*", features = ["macros", "rt-multi-thread"] }
