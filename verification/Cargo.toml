[package]
name = "dwfv"
version = "0.4.1"
edition = "2021"
publish = false

[dependencies]
gumdrop = "0.8"
termion = "1.5"
tui = { version = "0.19", default-features = false, features = ["termion"] }
