[package]
name = "mangodisk"
version = "0.1.0"
edition = "2021"
publish = false

[dependencies]
blake3 = "1"
serde = { version = "1", features = ["derive"] }
serde_json = "1"
toml = "*"
plist = "1"
dirs = "*"
libc = "0.2"
log = "0.4"
objc2 = "*"
objc2-app-kit = "*"
windows-sys = { version = "*", features = ["Win32_Foundation", "Win32_Storage_FileSystem"] }

[dev-dependencies]
tempfile = "3"
