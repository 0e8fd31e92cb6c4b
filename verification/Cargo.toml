[package]
name = "dedent-paste"
version = "0.1.0"
edition = "2021"
publish = false

[dependencies]
base64 = "0.22"
serde_json = "1"
image = { version = "0.25", default-features = false, features = ["bmp", "png"] }
ureq = "3"
clipboard-win = "5"
windows-sys = { version = "0.59", features = ["Win32_Foundation", "Win32_UI_Input_KeyboardAndMouse", "Win32_UI_WindowsAndMessaging"] }
