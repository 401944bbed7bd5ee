[package]
name = "radian_core"
version = "0.1.0"
edition = "2021"
publish = false

[dependencies]
xmas-elf = "*"
dirs = "*"
ansic = "*"
uefi = "*"
iced-x86 = { version = "*", default-features = false, features = ["std", "decoder", "gas"] }
