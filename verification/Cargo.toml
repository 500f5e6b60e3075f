[package]
name = "music_visualiser_tauri"
version = "0.1.0"
edition = "2021"
publish = false

[dependencies]
rodio = { version = "0.17", default-features = false, features = ["mp3"] }
rustfft = "6"
serde = { version = "1", features = ["derive"] }
