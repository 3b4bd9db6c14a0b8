[package]
name = "word_displayer"
version = "0.1.0"
edition = "2021"
publish = false

[dependencies]
eframe = { version = "0.31", default-features = false, features = ["glow", "default_fonts", "x11"] }
egui = "0.31"
image = { version = "0.25", default-features = false, features = ["png"] }
rayon = "1"
walkdir = "2"
windows-sys = { version = "0.59", features = ["Win32_Foundation", "Win32_Graphics_Gdi", "Win32_System_Threading", "Win32_UI_Input_KeyboardAndMouse", "Win32_UI_WindowsAndMessaging", "Win32_Security"] }
