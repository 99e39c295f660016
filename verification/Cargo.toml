[package]
name = "nte_dps"
version = "0.1.0"
edition = "2021"
publish = false

[dependencies]
anyhow = "1"
chrono = "0.4"
crossbeam-channel = "0.5"
eframe = { version = "0.32", default-features = false, features = ["default_fonts", "glow", "x11"] }
hex = "0.4"
image = { version = "0.25", default-features = false, features = ["png"] }
libloading = "0.8"
pcap-file = "2"
raw-window-handle = "0.6"
rfd = { version = "0.15", default-features = false, features = ["xdg-portal", "async-std"] }
serde = { version = "1", features = ["derive"] }
serde_json = "1"
windows-sys = { version = "0.59", features = ["Win32_Foundation", "Win32_Graphics_Dwm", "Win32_UI_WindowsAndMessaging", "Win32_UI_Input_KeyboardAndMouse", "Win32_NetworkManagement_IpHelper", "Win32_Networking_WinSock", "Win32_System_Diagnostics_ToolHelp"] }
