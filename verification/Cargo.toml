[package]
name = "ime_core"
version = "0.1.0"
edition = "2021"
publish = false

[dependencies]
windows-sys = { version = "0.48", features = ["Win32_Foundation", "Win32_Globalization", "Win32_UI_Input_Ime", "Win32_UI_WindowsAndMessaging"] }
