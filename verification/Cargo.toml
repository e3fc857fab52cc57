[package]
name = "ohm_player"
version = "0.1.0"
edition = "2021"
publish = false

[dependencies]
id3 = "1"
image = { version = "0.25", default-features = false, features = ["bmp", "gif", "jpeg", "png", "webp"] }
mp3-duration = "0.1"
rand = "0.8"
rfd = { version = "0.15", default-features = false, features = ["gtk3"] }
rodio = { version = "0.20", default-features = false, features = ["symphonia-mp3"] }
rusqlite = { version = "0.32", features = ["bundled"] }
slint = { version = "=1.8.0", default-features = false, features = ["std", "compat-1-2"] }
