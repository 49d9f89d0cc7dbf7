[package]
name = "kipclip"
version = "0.1.3"
edition = "2021"
publish = false

[dependencies]
url = "=2.5.8"
regex-lite = "=0.1.9"
unicode-width = "=0.2.3"
serde = { version = "1", features = ["derive"] }
serde_json = "1"
chrono = "0.4"
clap = { version = "4", features = ["derive"] }
dirs = "*"
miette = "7"
owo-colors = "*"
reqwest = { version = "0.12", default-features = false, features = ["rustls-tls"] }
rpassword = "7"
terminal_size = "*"
tokio = { version = "1", features = ["macros", "rt-multi-thread"] }
open = "5"
