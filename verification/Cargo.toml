[package]
name = "media_containers"
version = "0.1.0"
edition = "2021"
publish = false

[dependencies]
symphonia = { version = "0.5", default-features = false, features = ["aac", "flac", "pcm", "vorbis"] }
thiserror = "2"

[dev-dependencies]
mp4-atom = "0.10"
matroska-demuxer = "*"
