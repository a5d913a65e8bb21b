[package]
name = "pave"
version = "0.1.0"
edition = "2021"
publish = false

[dependencies]
anyhow = "=1.0.104"
clap = { version = "=4.6.7", features = ["derive"] }
console = "=0.16.6"
ctrlc = "=3.5.2"
dialoguer = "=0.12.0"
dirs = "=7.0.0"
dunce = "=1.0.5"
ignore = "=0.4.34"
indicatif = "=0.18.6"
winreg = "*"
windows-sys = { version = "*", features = ["Win32_Foundation", "Win32_System_Environment", "Win32_UI_WindowsAndMessaging", "Win32_System_Diagnostics_ToolHelp"] }
