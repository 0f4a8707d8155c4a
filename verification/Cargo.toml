[package]
name = "find_core"
version = "0.1.0"
edition = "2021"
publish = false

[dependencies]
bincode = "=1.3.3"
chrono = { version = "=0.4.45", default-features = false, features = ["clock", "std"] }
crossbeam-channel = "=0.5.17"
directories = "=5.0.1"
eframe = { version = "=0.32.3", default-features = false, features = ["default_fonts", "glow", "x11"] }
egui_extras = { version = "=0.32.3", default-features = false, features = ["image"] }
grep-regex = "=0.1.14"
grep-searcher = "=0.1.17"
image = { version = "=0.25.10", default-features = false, features = ["bmp", "gif", "ico", "jpeg", "png", "tiff", "webp"] }
jwalk = "=0.8.1"
notify = "=6.1.1"
nucleo-matcher = "=0.3.1"
open = "=5.4.5"
pdf-extract = "=0.7.12"
raw-window-handle = "=0.6.2"
rayon = "=1.12.0"
regex = "=1.13.1"
serde = { version = "=1.0.229", features = ["derive"] }
serde_json = "=1.0.154"
windows-sys = { version = "=0.59.0", features = ["Win32_Foundation", "Win32_Graphics_Gdi", "Win32_Security", "Win32_Storage_FileSystem", "Win32_System_Com", "Win32_System_DataExchange", "Win32_System_IO", "Win32_System_Ioctl", "Win32_System_Memory", "Win32_System_Ole", "Win32_System_Threading", "Win32_UI_Shell", "Win32_UI_Shell_Common", "Win32_UI_WindowsAndMessaging"] }
zip = { version = "=2.6.1", default-features = false, features = ["deflate"] }
