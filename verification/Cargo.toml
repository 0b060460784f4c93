[package]
name = "cozip"
version = "0.1.0"
edition = "2021"
publish = false

[dependencies]
crc32fast = "1"
encoding_rs = "0.8"
thiserror = "2"
tokio = { version = "1", features = ["fs", "rt", "rt-multi-thread"] }
flate2 = "1"
bzip2 = "*"
xz2 = "0.1"
tar = "0.4"
sevenz-rust = "*"
unrar = "*"
serde = { version = "1", features = ["derive"] }
reqwest = { version = "0.12", default-features = false, features = ["blocking", "json"] }
zip = { version = "*", default-features = false, features = ["deflate"] }
windows-sys = { version = "*", features = ["Win32_Foundation", "Win32_Security", "Win32_Storage_FileSystem", "Win32_System_Com", "Win32_System_LibraryLoader", "Win32_System_Registry", "Win32_System_Threading", "Win32_UI_Shell", "Win32_UI_WindowsAndMessaging"] }
