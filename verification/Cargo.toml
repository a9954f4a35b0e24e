[package]
name = "tswn"
version = "0.3.1"
edition = "2021"
publish = false

[dependencies]
base16384 = "*"
chrono = "0.4"
clap = { version = "4", features = ["derive"] }
colored = "2"
crossbeam = "0.8"
tracing = "0.1"
tracing-subscriber = "0.3"
serde = { version = "1", features = ["derive"] }
serde_json = "1"
anyhow = "1"
windows-sys = { version = "0.52", features = ["Win32_Foundation", "Win32_System_Threading"] }
