[package]
name = "resonda"
version = "0.1.0"
edition = "2021"
publish = false

[dependencies]
ureq = { version = "3", features = ["json"] }
serde_json = "1"
rusty_mp3 = "*"
symphonia-core = "*"
symphonia-codec-aac = "*"
