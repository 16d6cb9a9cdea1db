[package]
name = "targone-core"
version = "0.1.0"
edition = "2021"
publish = false

[dependencies]
clap = { version = "4", features = ["derive"] }
serde = { version = "1", features = ["derive"] }
serde_json = "1"
toml = "*"
walkdir = "2"
remove_dir_all = "*"
libc = "0.2"
windows-sys = { version = "*", features = ["Win32_Storage_FileSystem"] }
