[package]
name = "rofi_tracker"
version = "0.1.0"
edition = "2021"
publish = false

[dependencies]
anyhow = "1"
dbus = "0.9"
fd = "*"
fork = "0.1"
opener = "*"
percent-encoding = "2"
url = "2"
