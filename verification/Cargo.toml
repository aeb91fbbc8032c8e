[package]
name = "jdkenv"
version = "0.1.0"
edition = "2021"
publish = false

[dependencies]
anyhow = "1"
clap = { version = "4", features = ["derive"] }
indicatif = "0.17"
junction = "1"
serde = { version = "1", features = ["derive"] }
serde_json = "1"
ureq = "2"
windows-sys = { version = "0.59", features = ["Win32_Foundation", "Win32_Security", "Win32_System_Threading", "Win32_UI_Shell", "Win32_UI_WindowsAndMessaging"] }
winreg = "0.55"
zip = { version = "2", default-features = false, features = ["deflate"] }
