[package]
name = "whisper_ct2"
version = "0.7.0"
edition = "2021"
publish = false

[dependencies]
anyhow = "1"
ct2rs = "0.10"
mel_spec = "0.3"
ndarray = "0.16"
rustfft = "6"
rustler = "0.38"
serde = { version = "1", features = ["derive"] }
serde_json = "1"
tokenizers = "0.22"
