[package]
name = "lan_remote"
version = "0.1.0"
edition = "2021"
publish = false

[dependencies]
anyhow = "1"
arboard = { version = "3", default-features = false }
argon2 = "0.5"
bincode = "1"
chacha20poly1305 = "0.10"
clap = { version = "4", default-features = false, features = ["derive", "std", "help", "usage"] }
crossbeam-channel = "0.5"
eframe = { version = "0.34", default-features = false, features = ["default_fonts", "glow", "x11"] }
enigo = { version = "*", default-features = false, features = ["x11rb"] }
getrandom = "0.2"
openh264 = "*"
serde = { version = "1", features = ["derive"] }
tracing = "0.1"
tracing-subscriber = { version = "0.3", default-features = false, features = ["env-filter", "fmt"] }
