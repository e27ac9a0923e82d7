[package]
name = "mkv_lib"
version = "0.1.0"
edition = "2021"
publish = false

[dependencies]
allsorts = "0.17"
encoding_rs = "=0.8.44"
ffmpeg-next = "=7.1.0"
serde = { version = "=1.0.229", features = ["derive"] }
