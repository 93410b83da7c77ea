[package]
name = "imageviewer"
version = "0.1.0"
edition = "2021"
publish = false

[dependencies]
image = { version = "0.25", default-features = false, features = ["png", "jpeg"] }
toml = "0.8"
serde = { version = "1", features = ["derive"] }
log = "0.4"
chrono = { version = "0.4", default-features = false, features = ["clock"] }
anyhow = "1"
async-channel = "2"
smallvec = "1"
windows-sys = { version = "0.60", features = ["Win32_Foundation", "Win32_Security", "Win32_Storage_FileSystem", "Win32_System_Pipes", "Win32_System_Threading", "Win32_UI_WindowsAndMessaging", "Win32_UI_Input_KeyboardAndMouse"] }
