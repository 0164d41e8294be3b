[package]
name = "disk_scanner"
version = "0.1.0"
edition = "2021"
publish = false

[dependencies]
ntfs-reader = "*"
windows-sys = { version = "*", features = ["Win32_Foundation", "Win32_Storage_FileSystem"] }
