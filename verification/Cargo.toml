[package]
name = "passman"
version = "0.1.0"
edition = "2021"
publish = false

[dependencies]
aes = "0.8"
aes-gcm = "0.10"
base64 = "0.22"
clap = { version = "4", features = ["derive"] }
dirs-next = "2"
pbkdf2 = "0.12"
rand = "0.8"
rpassword = "7"
rusqlite = "0.31"
sha2 = "0.10"
uuid = { version = "1", features = ["v4"] }
