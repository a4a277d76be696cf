[package]
name = "pwmgr"
version = "0.1.0"
edition = "2021"
publish = false

[dependencies]
aes-gcm = "0.10"
base64 = "0.22"
rand = "0.8"
sha2 = "0.10"
clap = { version = "4", features = ["derive"] }
crossterm = "0.27"
rpassword = "7"
serde = { version = "1", features = ["derive"] }
serde_json = "1"
