[package]
name = "linkfield"
version = "0.1.0"
edition = "2021"
publish = false

[dependencies]
bincode = "2"
ignore = "0.4"
indicatif = "0.17"
notify-debouncer-full = "0.5"
rayon = "1"
redb = "2.6"
tracing = "0.1"
windows = { version = "*", features = ["Win32_System_Registry", "Win32_UI_Shell"] }
