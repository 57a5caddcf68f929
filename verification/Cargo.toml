[package]
name = "pipemeeter"
version = "0.1.0"
edition = "2021"
publish = false

[dependencies]
glob = "0.3.4"
serde = { version = "1", features = ["derive"] }
serde_json = "1"
anyhow = "1"
dirs = "*"
log = "0.4"
env_logger = { version = "0.11", default-features = false, features = ["humantime"] }
libc = "0.2"
ouroboros = "*"
pipewire = "*"
eframe = { version = "0.37", default-features = false, features = ["default_fonts", "glow", "x11"] }
image = { version = "*", default-features = false, features = ["png"] }
