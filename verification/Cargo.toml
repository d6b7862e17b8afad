[package]
name = "veracrypt"
version = "0.1.0"
edition = "2021"
publish = false

[dependencies]
aes = "0.8"
xts-mode = "0.5"
pbkdf2 = "0.12"
hmac = "0.12"
sha2 = "0.10"
fatfs = { version = "0.3", default-features = false, features = ["std", "alloc"] }
fscommon = "0.1"
thiserror = "1"

[dev-dependencies]
crc = "3"
